use spellpack::lookup::{
    icon_fields, icon_fragments, icon_parts_of, load_icons, load_lang, load_tooltips, marked_parts, second_of,
    tooltip_slice, Attribute, IconAttr, IconEntry,
};
use spellpack::proto::get_spell_proto;
use spellpack::entry::Stats;

fn quantize(text: &str) -> u8 {
    let f: f32 = text.parse().unwrap();
    (f * 32f32) as u8
}

fn attr(id: &str, value: Option<&str>, handle: Option<&str>) -> Attribute {
    Attribute {
        id: id.to_string(),
        value: value.map(|s| s.to_string()),
        handle: handle.map(|s| s.to_string()),
    }
}

#[test]
fn read_lang() {
    let lang = load_lang(&vec![(
        "h000006d4gcefbg4092gbb39gfeb27a3bb0a7".to_string(),
        "Sorry, darling, I haven't got time for underlings.".to_string(),
    )]);
    let val = lang.get("h000006d4gcefbg4092gbb39gfeb27a3bb0a7");
    assert_eq!(val, Some(&"Sorry, darling, I haven't got time for underlings.".to_string()));
}

#[test]
fn load_lang_keeps_the_last_text_of_an_id() {
    let lang = load_lang(&vec![
        ("a".to_string(), "one".to_string()),
        ("b".to_string(), "two".to_string()),
        ("a".to_string(), "three".to_string()),
    ]);
    assert_eq!(lang.get("a"), Some(&"three".to_string()));
    assert_eq!(lang.get("b"), Some(&"two".to_string()));
    assert_eq!(lang.get("c"), None);
}

#[test]
fn read_tooltips() {
    let lang = load_lang(&vec![("h1".to_string(), "Deals more damage.".to_string())]);
    let nodes = vec![vec![
        attr("Name", Some("Additional damage"), None),
        attr("Text", None, Some("h1")),
        attr("UUID", Some("66388a6f-44dd-4c9f-a9e7-910c50e70755"), None),
    ]];
    let tips = load_tooltips(&nodes, &lang);
    let val = tips.get("66388a6f-44dd-4c9f-a9e7-910c50e70755").unwrap();
    assert_eq!(val.0, "Additional damage");
    assert_eq!(val.1, "Deals more damage.");
}

#[test]
fn tooltip_attributes_go_by_their_first_letter() {
    let lang = load_lang(&vec![]);
    let nodes = vec![
        vec![
            attr("U", Some("k1"), None),
            attr("Nx", None, Some("ignored")),
            attr("T", Some("ignored"), None),
            attr("Tx", None, Some("h-unknown")),
            attr("", Some("ignored"), None),
            attr("Other", Some("ignored"), Some("ignored")),
        ],
        vec![attr("N", Some("nameless key"), None)],
        vec![attr("U", Some("k1"), None), attr("N", Some("later"), None)],
    ];
    let tips = load_tooltips(&nodes, &lang);
    assert_eq!(tips.get("k1"), Some(&("later".to_string(), "".to_string())));
    assert_eq!(tips.get(""), Some(&("nameless key".to_string(), "".to_string())));
    let first = load_tooltips(&nodes[..1].iter().map(|n| {
        n.iter().map(|a| attr(&a.id, a.value.as_deref(), a.handle.as_deref())).collect()
    }).collect(), &lang);
    assert_eq!(first.get("k1"), Some(&("".to_string(), "h-unknown".to_string())));
}

#[test]
fn tooltip_slice_is_the_second_part() {
    let xml = "<save><children><node/></children><children>x</children></save>";
    assert_eq!(tooltip_slice(xml), Some("<node/>".to_string()));
    assert_eq!(tooltip_slice("<save/>"), None);
    assert_eq!(tooltip_slice("<children>"), Some("".to_string()));
    assert_eq!(second_of(None), None);
    assert_eq!(second_of(Some(vec!["a".to_string()])), None);
    assert_eq!(second_of(Some(vec!["a".to_string(), "b".to_string()])), Some("b".to_string()));
}

#[test]
fn icon_fragments_are_those_with_a_key() {
    let xml = "<region><node id=\"IconUV\"><attribute id=\"MapKey\" value=\"a\"/></node>\
               <node id=\"Other\"><attribute id=\"Name\" value=\"b\"/></node>\
               <node id=\"IconUV\"><attribute id=\"MapKey\" value=\"c\"/></node></region>";
    assert_eq!(
        icon_fragments(xml),
        vec![
            "<attribute id=\"MapKey\" value=\"a\"/>".to_string(),
            "<attribute id=\"MapKey\" value=\"c\"/>".to_string(),
        ]
    );
    assert!(icon_fragments("").is_empty());
    assert!(icon_parts_of(None).is_empty());
    assert_eq!(
        icon_parts_of(Some(vec!["<attribute id=\"MapKey\"/>".to_string(), "".to_string()])),
        vec!["<attribute id=\"MapKey\"/>".to_string()]
    );
    assert_eq!(
        marked_parts(&vec!["<attribute id=\"MapKe".to_string(), "x<attribute id=\"MapKeyy".to_string()]),
        vec!["x<attribute id=\"MapKeyy".to_string()]
    );
}

#[test]
fn test_load_icons() {
    let attrs = vec![
        IconAttr { id: "MapKey".to_string(), value: "statIcons_YeenoghusHunger".to_string() },
        IconAttr { id: "U1".to_string(), value: "0.1875".to_string() },
        IconAttr { id: "U2".to_string(), value: "0.21875".to_string() },
        IconAttr { id: "V1".to_string(), value: "0.34375".to_string() },
        IconAttr { id: "V2".to_string(), value: "0.375".to_string() },
    ];
    let fields = icon_fields(&attrs);
    let entry = IconEntry {
        id: fields.key,
        u: fields.u1.map(|t| quantize(&t)).unwrap_or(0),
        v: fields.v1.map(|t| quantize(&t)).unwrap_or(0),
        atlas: 0,
    };
    let mp = load_icons(&vec![entry]);
    if let Some(i) = mp.get("statIcons_YeenoghusHunger") {
        assert_eq!(i, &[6, 11, 0]);
    } else {
        assert!(false, "should never reach here")
    };
}

#[test]
fn icon_fields_take_the_last_of_each() {
    let attrs = vec![
        IconAttr { id: "U1".to_string(), value: "0.5".to_string() },
        IconAttr { id: "MapKey".to_string(), value: "a".to_string() },
        IconAttr { id: "MapKey".to_string(), value: "b".to_string() },
        IconAttr { id: "u1".to_string(), value: "0.75".to_string() },
    ];
    let fields = icon_fields(&attrs);
    assert_eq!(fields.key, "b");
    assert_eq!(fields.u1, Some("0.5".to_string()));
    assert_eq!(fields.v1, None);
    let none = icon_fields(&vec![]);
    assert_eq!((none.key.as_str(), none.u1, none.v1), ("", None, None));
}

#[test]
fn load_icons_keeps_the_last_entry_of_a_key() {
    let e = |id: &str, u: u8, v: u8, atlas: u8| IconEntry { id: id.to_string(), u, v, atlas };
    let mp = load_icons(&vec![e("a", 1, 2, 0), e("b", 3, 4, 0), e("a", 5, 6, 1)]);
    assert_eq!(mp.get("a"), Some(&[5, 6, 1]));
    assert_eq!(mp.get("b"), Some(&[3, 4, 0]));
    assert_eq!(mp.get("c"), None);
}

fn entry(id: &str, weight: u8, using: Option<&str>) -> Stats {
    let mut s = Stats::new();
    s.id = id.to_string();
    s.weight = weight;
    if let Some(u) = using {
        s.insert("Using".to_string(), u.to_string());
    }
    s
}

#[test]
fn proto_of_an_entry_without_base_is_itself() {
    let list = vec![entry("A", 0, None), entry("A", 1, None)];
    assert_eq!(get_spell_proto(0, &list), 0);
    assert_eq!(get_spell_proto(1, &list), 1);
}

#[test]
fn proto_is_the_entry_of_the_layer_below() {
    let list = vec![
        entry("A", 3, Some("A")),
        entry("A", 0, None),
        entry("B", 2, None),
        entry("A", 2, Some("A")),
        entry("A", 1, Some("A")),
    ];
    // weight 2 is the layer below 3, and the search ends there
    assert_eq!(get_spell_proto(0, &list), 3);
}

#[test]
fn proto_is_the_heaviest_entry_below_the_limit() {
    let list = vec![
        entry("A", 5, Some("A")),
        entry("A", 1, None),
        entry("A", 3, None),
        entry("A", 2, None),
        entry("A", 3, None),
        entry("A", 9, None),
    ];
    // no entry of weight 4; of the two of weight 3 the later one holds the place
    assert_eq!(get_spell_proto(0, &list), 4);
}

#[test]
fn proto_of_another_base_may_weigh_as_much() {
    let list = vec![
        entry("X", 0, None),
        entry("B", 1, Some("A")),
        entry("A", 2, None),
        entry("A", 1, None),
        entry("A", 0, None),
    ];
    assert_eq!(get_spell_proto(1, &list), 3);
    // nothing behind the entry is filed under its base: the place stays 0
    let list = vec![entry("X", 0, None), entry("B", 1, Some("A"))];
    assert_eq!(get_spell_proto(1, &list), 0);
}

#[test]
fn proto_search_starts_from_the_first_entry() {
    // the first entry holds the place at the start, unless the search is for it
    let list = vec![
        entry("X", 4, None),
        entry("B", 5, Some("A")),
        entry("A", 3, None),
        entry("A", 4, None),
    ];
    assert_eq!(get_spell_proto(1, &list), 3);
    let list = vec![entry("X", 4, None), entry("B", 5, Some("A")), entry("A", 3, None)];
    assert_eq!(get_spell_proto(1, &list), 0);
    let list = vec![entry("B", 5, Some("A")), entry("A", 3, None)];
    assert_eq!(get_spell_proto(0, &list), 1);
}
