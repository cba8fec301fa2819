//! The maps that are built once and then only read: the texts of the
//! localization, the tooltips and the icons.

use vstd::prelude::*;
use vstd::string::*;
use vstd::hash_map::StringHashMap;
use crate::pattern::{regex_split, split_str};
use crate::text::{chars_of, contains_chars, has_part, opt_texts_view, opt_view, texts_view};

verus! {

/// A list of pairs of strings as contracts see it.
pub open spec fn pairs_view(pairs: Seq<(String, String)>) -> Seq<(Seq<char>, Seq<char>)> {
    Seq::new(pairs.len(), |i: int| (pairs[i].0@, pairs[i].1@))
}

/// The text that `text` stands for: the one filed under it in `lang`, or
/// `text` itself where nothing is filed under it.
pub open spec fn localized(text: Seq<char>, lang: Map<Seq<char>, Seq<char>>) -> Seq<char> {
    if lang.contains_key(text) {
        lang[text]
    } else {
        text
    }
}

/// The map of the first `k` pairs: a later pair replaces an earlier one with
/// the same id.
pub open spec fn lang_upto(pairs: Seq<(Seq<char>, Seq<char>)>, k: nat) -> Map<
    Seq<char>,
    Seq<char>,
>
    decreases k,
{
    if k == 0 {
        Map::empty()
    } else {
        lang_upto(pairs, (k - 1) as nat).insert(pairs[k - 1].0, pairs[k - 1].1)
    }
}

/// The texts of one language, by id.
pub struct Localization {
    pub texts: StringHashMap<String>,
}

impl View for Localization {
    type V = Map<Seq<char>, Seq<char>>;

    open spec fn view(&self) -> Map<Seq<char>, Seq<char>> {
        Map::new(|k: Seq<char>| self.texts@.contains_key(k), |k: Seq<char>| self.texts@[k]@)
    }
}

impl Localization {
    /// A localization without texts.
    pub fn new() -> (r: Localization)
        ensures
            r@ == Map::<Seq<char>, Seq<char>>::empty(),
    {
        let r = Localization { texts: StringHashMap::new() };
        assert(r@ =~= Map::<Seq<char>, Seq<char>>::empty());
        r
    }

    /// Files `text` under `id`, in place of what was filed there.
    pub fn insert(&mut self, id: String, text: String)
        ensures
            final(self)@ == old(self)@.insert(id@, text@),
    {
        self.texts.insert(id, text);
        assert(self@ =~= old(self)@.insert(id@, text@));
    }

    /// The text filed under `id`.
    pub fn get(&self, id: &str) -> (r: Option<&String>)
        ensures
            match r {
                Some(t) => self@.contains_key(id@) && self@[id@] == t@,
                None => !self@.contains_key(id@),
            },
    {
        self.texts.get(id)
    }

    /// The text that `text` stands for: the one filed under it, or `text`
    /// itself where nothing is filed under it.
    pub fn resolve(&self, text: &str) -> (r: String)
        ensures
            r@ == localized(text@, self@),
    {
        match self.get(text) {
            Some(t) => t.clone(),
            None => text.to_string(),
        }
    }
}

/// The localization that holds `content`, a list of ids with their texts.
pub fn load_lang(content: &Vec<(String, String)>) -> (r: Localization)
    ensures
        r@ == lang_upto(pairs_view(content@), content@.len()),
{
    let ghost pairs = pairs_view(content@);
    let mut lang = Localization::new();
    let mut i: usize = 0;
    while i < content.len()
        invariant
            i <= content@.len(),
            pairs == pairs_view(content@),
            lang@ == lang_upto(pairs, i as nat),
        decreases content@.len() - i,
    {
        lang.insert(content[i].0.clone(), content[i].1.clone());
        assert(pairs[i as int] == (content@[i as int].0@, content@[i as int].1@));
        i = i + 1;
    }
    lang
}

/// One attribute of a tooltip node.
pub struct Attribute {
    pub id: String,
    pub value: Option<String>,
    pub handle: Option<String>,
}

/// An attribute of a tooltip node as contracts see it.
pub struct AttributeView {
    pub id: Seq<char>,
    pub value: Option<Seq<char>>,
    pub handle: Option<Seq<char>>,
}

impl View for Attribute {
    type V = AttributeView;

    open spec fn view(&self) -> AttributeView {
        AttributeView {
            id: self.id@,
            value: match self.value {
                Some(v) => Some(v@),
                None => None,
            },
            handle: match self.handle {
                Some(h) => Some(h@),
                None => None,
            },
        }
    }
}

/// The views of the attributes of one node.
pub open spec fn node_view(attrs: Seq<Attribute>) -> Seq<AttributeView> {
    Seq::new(attrs.len(), |i: int| attrs[i]@)
}

/// The views of a list of nodes.
pub open spec fn nodes_view(nodes: Seq<Vec<Attribute>>) -> Seq<Seq<AttributeView>> {
    Seq::new(nodes.len(), |i: int| node_view(nodes[i]@))
}

/// What is known of a tooltip while its node is read.
pub struct TooltipFields {
    pub uuid: Seq<char>,
    pub name: Seq<char>,
    pub text: Seq<char>,
}

/// The fields after one more attribute. The first letter of the attribute's
/// id decides: `N` gives the name, `T` a handle whose text is taken from the
/// localization, `U` the key of the tooltip. An attribute that lacks what
/// its letter asks for changes nothing.
pub open spec fn with_attribute(
    fields: TooltipFields,
    attr: AttributeView,
    lang: Map<Seq<char>, Seq<char>>,
) -> TooltipFields {
    if attr.id.len() == 0 {
        fields
    } else if attr.id[0] == 'N' && attr.value.is_some() {
        TooltipFields { name: attr.value.unwrap(), ..fields }
    } else if attr.id[0] == 'T' && attr.handle.is_some() {
        TooltipFields { text: localized(attr.handle.unwrap(), lang), ..fields }
    } else if attr.id[0] == 'U' && attr.value.is_some() {
        TooltipFields { uuid: attr.value.unwrap(), ..fields }
    } else {
        fields
    }
}

/// The fields after the first `k` attributes of a node; all are empty at the
/// start.
pub open spec fn fields_upto(attrs: Seq<AttributeView>, k: nat, lang: Map<Seq<char>, Seq<char>>)
    -> TooltipFields
    decreases k,
{
    if k == 0 {
        TooltipFields { uuid: Seq::empty(), name: Seq::empty(), text: Seq::empty() }
    } else {
        with_attribute(fields_upto(attrs, (k - 1) as nat, lang), attrs[k - 1], lang)
    }
}

/// The tooltips of the first `k` nodes, each filed under its key with its
/// name and text; a later node replaces an earlier one with the same key.
pub open spec fn tooltips_upto(
    nodes: Seq<Seq<AttributeView>>,
    k: nat,
    lang: Map<Seq<char>, Seq<char>>,
) -> Map<Seq<char>, (Seq<char>, Seq<char>)>
    decreases k,
{
    if k == 0 {
        Map::empty()
    } else {
        let fields = fields_upto(nodes[k - 1], nodes[k - 1].len(), lang);
        tooltips_upto(nodes, (k - 1) as nat, lang).insert(fields.uuid, (fields.name, fields.text))
    }
}

/// The tooltips, by key: each has a name and a text.
pub struct Tooltips {
    pub entries: StringHashMap<(String, String)>,
}

impl View for Tooltips {
    type V = Map<Seq<char>, (Seq<char>, Seq<char>)>;

    open spec fn view(&self) -> Map<Seq<char>, (Seq<char>, Seq<char>)> {
        Map::new(
            |k: Seq<char>| self.entries@.contains_key(k),
            |k: Seq<char>| (self.entries@[k].0@, self.entries@[k].1@),
        )
    }
}

impl Tooltips {
    /// No tooltips.
    pub fn new() -> (r: Tooltips)
        ensures
            r@ == Map::<Seq<char>, (Seq<char>, Seq<char>)>::empty(),
    {
        let r = Tooltips { entries: StringHashMap::new() };
        assert(r@ =~= Map::<Seq<char>, (Seq<char>, Seq<char>)>::empty());
        r
    }

    /// Files a tooltip with `name` and `text` under `key`, in place of what
    /// was filed there.
    pub fn insert(&mut self, key: String, name: String, text: String)
        ensures
            final(self)@ == old(self)@.insert(key@, (name@, text@)),
    {
        self.entries.insert(key, (name, text));
        assert(self@ =~= old(self)@.insert(key@, (name@, text@)));
    }

    /// The name and the text of the tooltip filed under `key`.
    pub fn get(&self, key: &str) -> (r: Option<&(String, String)>)
        ensures
            match r {
                Some(t) => self@.contains_key(key@) && self@[key@] == (t.0@, t.1@),
                None => !self@.contains_key(key@),
            },
    {
        self.entries.get(key)
    }
}

/// The tooltips that the nodes describe, with the texts of their handles
/// taken from `lang`.
pub fn load_tooltips(nodes: &Vec<Vec<Attribute>>, lang: &Localization) -> (r: Tooltips)
    ensures
        r@ == tooltips_upto(nodes_view(nodes@), nodes@.len(), lang@),
{
    let ghost all = nodes_view(nodes@);
    let mut tips = Tooltips::new();
    let mut i: usize = 0;
    while i < nodes.len()
        invariant
            i <= nodes@.len(),
            all == nodes_view(nodes@),
            tips@ == tooltips_upto(all, i as nat, lang@),
        decreases nodes@.len() - i,
    {
        let node = &nodes[i];
        let ghost attrs = node_view(node@);
        assert(all[i as int] == attrs);
        let mut uuid = String::new();
        let mut name = String::new();
        let mut text = String::new();
        let mut j: usize = 0;
        while j < node.len()
            invariant
                j <= node@.len(),
                attrs == node_view(node@),
                (TooltipFields { uuid: uuid@, name: name@, text: text@ }) == fields_upto(
                    attrs,
                    j as nat,
                    lang@,
                ),
            decreases node@.len() - j,
        {
            let attr = &node[j];
            assert(attrs[j as int] == attr@);
            let id = chars_of(attr.id.as_str());
            if id.len() > 0 {
                let first: char = id[0];
                if first == 'N' && attr.value.is_some() {
                    match &attr.value {
                        Some(v) => {
                            name = v.clone();
                        },
                        None => {},
                    }
                } else if first == 'T' && attr.handle.is_some() {
                    match &attr.handle {
                        Some(h) => {
                            text = lang.resolve(h.as_str());
                        },
                        None => {},
                    }
                } else if first == 'U' && attr.value.is_some() {
                    match &attr.value {
                        Some(v) => {
                            uuid = v.clone();
                        },
                        None => {},
                    }
                }
            }
            j = j + 1;
        }
        tips.insert(uuid, name, text);
        i = i + 1;
    }
    tips
}

/// The pattern of the marks that cut a tooltip document into slices.
pub open spec fn children_pattern() -> Seq<char> {
    "<children>|</children>"@
}

/// The second of the slices, where there are two.
pub open spec fn second_slice(slices: Option<Seq<Seq<char>>>) -> Option<Seq<char>> {
    match slices {
        Some(v) => if v.len() >= 2 {
            Some(v[1])
        } else {
            None
        },
        None => None,
    }
}

/// The second of the slices, where there are two.
pub fn second_of(slices: Option<Vec<String>>) -> (r: Option<String>)
    ensures
        match r {
            Some(s) => second_slice(opt_texts_view(slices)) == Some(s@),
            None => second_slice(opt_texts_view(slices)).is_none(),
        },
{
    match slices {
        Some(v) => {
            if v.len() >= 2 {
                assert(texts_view(v@)[1] == v@[1]@);
                Some(v[1].clone())
            } else {
                None
            }
        },
        None => None,
    }
}

/// The slice of a tooltip document that holds its nodes: what stands between
/// the first and the second of its `children` marks. `None` for a document
/// without such a mark.
pub fn tooltip_slice(xml: &str) -> (r: Option<String>)
    ensures
        match r {
            Some(s) => second_slice(regex_split(children_pattern(), xml@)) == Some(s@),
            None => second_slice(regex_split(children_pattern(), xml@)).is_none(),
        },
{
    second_of(split_str(xml, "<children>|</children>"))
}

/// The pattern of the marks that cut an atlas document into fragments.
pub open spec fn icon_pattern() -> Seq<char> {
    "<node id=\"IconUV\">|</node>"@
}

/// What a fragment holds if it describes an icon.
pub open spec fn icon_mark() -> Seq<char> {
    "<attribute id=\"MapKey"@
}

/// Those of the first `k` parts that hold `icon_mark`, in their order.
pub open spec fn marked_upto(parts: Seq<Seq<char>>, k: nat) -> Seq<Seq<char>>
    decreases k,
{
    if k == 0 {
        Seq::empty()
    } else if has_part(parts[k - 1], icon_mark()) {
        marked_upto(parts, (k - 1) as nat).push(parts[k - 1])
    } else {
        marked_upto(parts, (k - 1) as nat)
    }
}

/// The fragments of an atlas document that describe an icon, given the parts
/// that the document was cut into; none where it was not cut.
pub open spec fn icon_parts(parts: Option<Seq<Seq<char>>>) -> Seq<Seq<char>> {
    match parts {
        Some(v) => marked_upto(v, v.len()),
        None => Seq::empty(),
    }
}

/// Those of `parts` that hold `icon_mark`, in their order.
pub fn marked_parts(parts: &Vec<String>) -> (r: Vec<String>)
    ensures
        texts_view(r@) == marked_upto(texts_view(parts@), parts@.len()),
{
    let ghost all = texts_view(parts@);
    let mark = chars_of("<attribute id=\"MapKey");
    let mut out: Vec<String> = Vec::new();
    assert(texts_view(out@) =~= marked_upto(all, 0));
    let mut i: usize = 0;
    while i < parts.len()
        invariant
            i <= parts@.len(),
            all == texts_view(parts@),
            mark@ == icon_mark(),
            texts_view(out@) == marked_upto(all, i as nat),
        decreases parts@.len() - i,
    {
        let part = chars_of(parts[i].as_str());
        assert(all[i as int] == part@);
        if contains_chars(&part, &mark) {
            let ghost before = texts_view(out@);
            out.push(parts[i].clone());
            assert(texts_view(out@) =~= before.push(part@));
        }
        i = i + 1;
    }
    out
}

/// The fragments that describe an icon, given the parts that an atlas
/// document was cut into.
pub fn icon_parts_of(parts: Option<Vec<String>>) -> (r: Vec<String>)
    ensures
        texts_view(r@) == icon_parts(opt_texts_view(parts)),
{
    match parts {
        Some(v) => marked_parts(&v),
        None => {
            let out: Vec<String> = Vec::new();
            assert(texts_view(out@) =~= Seq::<Seq<char>>::empty());
            out
        },
    }
}

/// The fragments of an atlas document that describe an icon.
pub fn icon_fragments(xml: &str) -> (r: Vec<String>)
    ensures
        texts_view(r@) == icon_parts(regex_split(icon_pattern(), xml@)),
{
    icon_parts_of(split_str(xml, "<node id=\"IconUV\">|</node>"))
}

/// One attribute of an icon fragment.
pub struct IconAttr {
    pub id: String,
    pub value: String,
}

/// What an icon fragment says of its icon: the key, and the two coordinates
/// as they are written.
pub struct IconFields {
    pub key: String,
    pub u1: Option<String>,
    pub v1: Option<String>,
}

/// The fields of an icon as contracts see them.
pub struct IconFieldsView {
    pub key: Seq<char>,
    pub u1: Option<Seq<char>>,
    pub v1: Option<Seq<char>>,
}

impl View for IconFields {
    type V = IconFieldsView;

    open spec fn view(&self) -> IconFieldsView {
        IconFieldsView {
            key: self.key@,
            u1: opt_view(self.u1),
            v1: opt_view(self.v1),
        }
    }
}

/// The fields after one more attribute: `MapKey` gives the key, `U1` and `V1`
/// the coordinates; any other attribute changes nothing.
pub open spec fn with_icon_attr(fields: IconFieldsView, id: Seq<char>, value: Seq<char>)
    -> IconFieldsView {
    if id == "MapKey"@ {
        IconFieldsView { key: value, ..fields }
    } else if id == "U1"@ {
        IconFieldsView { u1: Some(value), ..fields }
    } else if id == "V1"@ {
        IconFieldsView { v1: Some(value), ..fields }
    } else {
        fields
    }
}

/// The fields after the first `k` attributes; at the start the key is empty
/// and no coordinate is known.
pub open spec fn icon_fields_upto(attrs: Seq<(Seq<char>, Seq<char>)>, k: nat) -> IconFieldsView
    decreases k,
{
    if k == 0 {
        IconFieldsView { key: Seq::empty(), u1: None, v1: None }
    } else {
        with_icon_attr(icon_fields_upto(attrs, (k - 1) as nat), attrs[k - 1].0, attrs[k - 1].1)
    }
}

/// The attributes of an icon fragment as contracts see them.
pub open spec fn icon_attrs_view(attrs: Seq<IconAttr>) -> Seq<(Seq<char>, Seq<char>)> {
    Seq::new(attrs.len(), |i: int| (attrs[i].id@, attrs[i].value@))
}

/// What the attributes of an icon fragment say of its icon.
pub fn icon_fields(attrs: &Vec<IconAttr>) -> (r: IconFields)
    ensures
        r@ == icon_fields_upto(icon_attrs_view(attrs@), attrs@.len()),
{
    let ghost all = icon_attrs_view(attrs@);
    let map_key = "MapKey".to_string();
    let u_key = "U1".to_string();
    let v_key = "V1".to_string();
    let mut fields = IconFields { key: String::new(), u1: None, v1: None };
    let mut i: usize = 0;
    while i < attrs.len()
        invariant
            i <= attrs@.len(),
            all == icon_attrs_view(attrs@),
            map_key@ == "MapKey"@,
            u_key@ == "U1"@,
            v_key@ == "V1"@,
            fields@ == icon_fields_upto(all, i as nat),
        decreases attrs@.len() - i,
    {
        let attr = &attrs[i];
        assert(all[i as int] == (attr.id@, attr.value@));
        if attr.id == map_key {
            fields.key = attr.value.clone();
        } else if attr.id == u_key {
            fields.u1 = Some(attr.value.clone());
        } else if attr.id == v_key {
            fields.v1 = Some(attr.value.clone());
        }
        i = i + 1;
    }
    fields
}

/// One icon: its key, its two coordinates in 32nds, and the place of its
/// atlas among the atlases.
pub struct IconEntry {
    pub id: String,
    pub u: u8,
    pub v: u8,
    pub atlas: u8,
}

/// The icons of the first `k` entries, by key: the two coordinates and the
/// atlas; a later entry replaces an earlier one with the same key.
pub open spec fn icons_upto(found: Seq<IconEntry>, k: nat) -> Map<Seq<char>, [u8; 3]>
    decreases k,
{
    if k == 0 {
        Map::empty()
    } else {
        icons_upto(found, (k - 1) as nat).insert(
            found[k - 1].id@,
            [found[k - 1].u, found[k - 1].v, found[k - 1].atlas],
        )
    }
}

/// The icons, by key.
pub struct Icons {
    pub entries: StringHashMap<[u8; 3]>,
}

impl View for Icons {
    type V = Map<Seq<char>, [u8; 3]>;

    open spec fn view(&self) -> Map<Seq<char>, [u8; 3]> {
        self.entries@
    }
}

impl Icons {
    /// The coordinates and the atlas of the icon filed under `key`.
    pub fn get(&self, key: &str) -> (r: Option<&[u8; 3]>)
        ensures
            match r {
                Some(t) => self@.contains_key(key@) && self@[key@] == *t,
                None => !self@.contains_key(key@),
            },
    {
        self.entries.get(key)
    }
}

/// The map of the icons in `found`.
pub fn load_icons(found: &Vec<IconEntry>) -> (r: Icons)
    ensures
        r@ == icons_upto(found@, found@.len()),
{
    let mut icons = Icons { entries: StringHashMap::new() };
    let mut i: usize = 0;
    while i < found.len()
        invariant
            i <= found@.len(),
            icons@ == icons_upto(found@, i as nat),
        decreases found@.len() - i,
    {
        let e = &found[i];
        icons.entries.insert(e.id.clone(), [e.u, e.v, e.atlas]);
        i = i + 1;
    }
    icons
}

} // verus!
