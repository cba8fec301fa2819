use spellpack::classify::{bases_known, classify, level_rank, sort_keys, sort_keys_of, Record};
use spellpack::encode::{encode_record, parse_data, EncodeError, KeyDictionary};
use spellpack::entry::Stats;
use spellpack::group::Resolver;
use spellpack::lookup::{load_lang, Tooltips};
use spellpack::source::{load_spell, SourceFile};

fn entry(id: &str, stats_type: &str, weight: u8, data: &[(&str, &str)]) -> Stats {
    let mut s = Stats::new();
    s.id = id.to_string();
    s.stats_type = stats_type.to_string();
    s.weight = weight;
    for (k, v) in data {
        s.insert(k.to_string(), v.to_string());
    }
    s
}

fn layers() -> Vec<String> {
    vec!["Base".to_string(), "Patch".to_string(), "ModA".to_string(), "ModB".to_string()]
}

fn records_of(entries: Vec<Stats>) -> Vec<Record> {
    let resolver = Resolver::new(entries);
    let keys = sort_keys_of(&resolver).unwrap();
    let order = sort_keys(&keys);
    classify(&resolver, &order)
}

#[test]
fn new_entry_is_empty() {
    let s = Stats::new();
    assert_eq!(s.id, "");
    assert_eq!(s.stats_type, "");
    assert_eq!(s.weight, 0);
    assert!(s.data.is_empty());
}

#[test]
fn insert_keeps_the_place_of_a_name() {
    let mut s = Stats::new();
    s.insert("a".to_string(), "1".to_string());
    s.insert("b".to_string(), "2".to_string());
    s.insert("a".to_string(), "3".to_string());
    assert_eq!(
        s.data,
        vec![("a".to_string(), "3".to_string()), ("b".to_string(), "2".to_string())]
    );
    assert_eq!(s.get("a"), Some(&"3".to_string()));
    assert_eq!(s.get("c"), None);
}

#[test]
fn lowest_layer_that_has_the_attribute_wins() {
    let resolver = Resolver::new(vec![
        entry("Target_Fireball", "SpellData", 1, &[("Using", "Target_Fireball"), ("Description", "patched")]),
        entry("Target_Fireball", "SpellData", 0, &[("DisplayName", "Fireball")]),
    ]);
    assert_eq!(resolver.get_attr("Target_Fireball", "DisplayName"), Some("Fireball".to_string()));
    assert_eq!(resolver.get_attr("Target_Fireball", "Description"), Some("patched".to_string()));
    assert_eq!(resolver.get_attr("Target_Fireball", "Level"), None);
}

#[test]
fn a_later_layer_does_not_override_an_earlier_one() {
    let resolver = Resolver::new(vec![
        entry("A", "SpellData", 0, &[("Description", "first")]),
        entry("A", "SpellData", 1, &[("Using", "A"), ("Description", "second")]),
    ]);
    assert_eq!(resolver.get_attr("A", "Description"), Some("first".to_string()));
}

#[test]
fn attribute_of_the_base_is_found_along_the_chain() {
    let resolver = Resolver::new(vec![
        entry("C", "SpellData", 0, &[("Using", "B")]),
        entry("B", "SpellData", 0, &[("Using", "A")]),
        entry("A", "SpellData", 0, &[("Level", "3")]),
    ]);
    assert_eq!(resolver.get_attr("C", "Level"), Some("3".to_string()));
    assert_eq!(resolver.get_attr("C", "Damage"), None);
    assert_eq!(resolver.get_attr("Nobody", "Level"), None);
}

#[test]
fn a_cycle_of_bases_ends_the_search() {
    let resolver = Resolver::new(vec![
        entry("A", "SpellData", 0, &[("Using", "B")]),
        entry("B", "SpellData", 0, &[("Using", "A")]),
    ]);
    assert_eq!(resolver.get_attr("A", "Level"), None);
    assert_eq!(resolver.get_attr("A", "Using"), Some("B".to_string()));
}

#[test]
fn groups_are_filed_by_weight() {
    let resolver = Resolver::new(vec![
        entry("A", "SpellData", 3, &[]),
        entry("B", "SpellData", 0, &[]),
        entry("A", "SpellData", 0, &[]),
        entry("A", "SpellData", 2, &[]),
    ]);
    assert_eq!(resolver.ids, vec!["A".to_string(), "B".to_string()]);
    assert_eq!(resolver.members, vec![vec![2, 3, 0], vec![1]]);
    assert_eq!(resolver.group_of("B"), Some(1));
    assert_eq!(resolver.group_of("C"), None);
}

#[test]
fn one_shown_record_per_group_and_the_rest_hidden() {
    let recs = records_of(vec![
        entry("A", "SpellData", 3, &[("Using", "A")]),
        entry("A", "SpellData", 0, &[]),
        entry("A", "SpellData", 2, &[("Using", "A")]),
    ]);
    assert_eq!(recs.len(), 3);
    assert_eq!((recs[0].entry, recs[0].shown, recs[0].target), (1, true, 1));
    assert_eq!((recs[1].entry, recs[1].shown, recs[1].target), (2, false, 0));
    assert_eq!((recs[2].entry, recs[2].shown, recs[2].target), (0, false, 0));
    assert_eq!(recs.iter().filter(|r| r.shown).count(), 1);
    assert!(recs.iter().all(|r| r.owner == 0));
}

#[test]
fn a_record_with_another_base_hands_over_to_its_lowest_layer() {
    let recs = records_of(vec![
        entry("B", "SpellData", 1, &[("Using", "A")]),
        entry("A", "SpellData", 1, &[("Using", "A")]),
        entry("A", "SpellData", 0, &[]),
    ]);
    let b = recs.iter().find(|r| r.entry == 0).unwrap();
    assert_eq!(b.target, 2);
    assert!(b.shown);
}

#[test]
fn groups_sort_by_level_then_name() {
    let resolver = Resolver::new(vec![
        entry("Target_Zap", "SpellData", 0, &[("Level", "2")]),
        entry("Shout_Aid", "SpellData", 0, &[("Level", "2")]),
        entry("Zone_Cantrip", "SpellData", 0, &[("Level", "0")]),
        entry("Zone_None", "SpellData", 0, &[]),
        entry("Projectile_Bolt", "SpellData", 0, &[("Level", "1")]),
        entry("Interrupt_Aaa", "InterruptData", 0, &[("Level", "2")]),
    ]);
    let keys = sort_keys_of(&resolver).unwrap();
    assert_eq!(keys[0].rank, 2);
    assert_eq!(keys[0].name.iter().collect::<String>(), "_Zap");
    assert_eq!(keys[2].rank, 98);
    assert_eq!(keys[3].rank, 99);
    assert_eq!(keys[5].name.iter().collect::<String>(), "Interrupt_Aaa");
    // Level 1; then level 2 by name: "Interrupt_Aaa" < "_Aid" < "_Zap"; then 98; then 99
    assert_eq!(sort_keys(&keys), vec![4, 5, 1, 0, 2, 3]);
}

#[test]
fn groups_with_the_same_rank_and_name_sort_by_id() {
    let resolver = Resolver::new(vec![
        entry("Zone_X", "SpellData", 0, &[]),
        entry("Aura_X", "SpellData", 0, &[]),
    ]);
    let keys = sort_keys_of(&resolver).unwrap();
    assert_eq!(sort_keys(&keys), vec![1, 0]);
}

#[test]
fn level_rank_of_each_kind_of_level() {
    assert_eq!(level_rank(&None), Some(99));
    assert_eq!(level_rank(&Some("0".to_string())), Some(98));
    assert_eq!(level_rank(&Some("3".to_string())), Some(3));
    assert_eq!(level_rank(&Some("+7".to_string())), Some(7));
    assert_eq!(level_rank(&Some("255".to_string())), Some(255));
    assert_eq!(level_rank(&Some("256".to_string())), None);
    assert_eq!(level_rank(&Some("".to_string())), None);
    assert_eq!(level_rank(&Some("+".to_string())), None);
    assert_eq!(level_rank(&Some("-1".to_string())), None);
    assert_eq!(level_rank(&Some("two".to_string())), None);
}

#[test]
fn level_rank_agrees_with_the_parser_of_std() {
    for text in ["0", "00", "007", "+0", "12", "255", "256", "999", "1e1", " 1", "1 ", "", "+", "++1", "-0"] {
        let expected = match text.parse::<u8>() {
            Ok(0) => Some(98),
            Ok(v) => Some(v),
            Err(_) => None,
        };
        assert_eq!(level_rank(&Some(text.to_string())), expected, "{:?}", text);
    }
}

#[test]
fn encode_record_writes_tokens_then_values() {
    let attrs = vec![
        ("Name".to_string(), "Fire".to_string()),
        ("Cost".to_string(), "3".to_string()),
    ];
    let (first, dict) = encode_record(KeyDictionary::new(), &attrs).unwrap();
    assert_eq!(first, "\u{3}\u{4}\0Fire\03");
    let attrs = vec![
        ("Cost".to_string(), "1".to_string()),
        ("Range".to_string(), "".to_string()),
    ];
    let (second, dict) = encode_record(dict, &attrs).unwrap();
    assert_eq!(second, "\u{4}\u{5}\01\0");
    assert_eq!(dict.names, vec!["Name".to_string(), "Cost".to_string(), "Range".to_string()]);
}

#[test]
fn parse_data_of_one_entry() {
    let r = parse_data(
        vec![entry("A", "SpellData", 0, &[("DisplayName", "Fire")])],
        &vec!["Target".to_string(), "Zone".to_string()],
        &layers(),
    )
    .unwrap();
    assert_eq!(r.spells, vec!["\u{3}\u{4}\u{5}\0Fire\00\0Base".to_string()]);
    assert_eq!(r.keys, "DisplayName,Using,mod");
    assert_eq!(r.types, "Target,Zone");
    assert_eq!(r.icons, "");
    assert_eq!(r.dic, "");
}

#[test]
fn parse_data_of_two_layers() {
    let r = parse_data(
        vec![
            entry("Target_Fireball", "SpellData", 1, &[("Using", "Target_Fireball"), ("Description", "patched")]),
            entry("Target_Fireball", "SpellData", 0, &[("DisplayName", "Fireball")]),
        ],
        &vec![],
        &layers(),
    )
    .unwrap();
    assert_eq!(
        r.spells,
        vec![
            // shown: the entry of layer 0, which hands over to itself
            "\u{3}\u{4}\u{5}\0Fireball\00\0Base".to_string(),
            // hidden: the entry of layer 1, the last of its group
            "\u{4}\u{6}\u{7}\u{5}\01\0patched\00\0Patch".to_string(),
        ]
    );
    assert_eq!(r.keys, "DisplayName,Using,mod,Description,i");
    assert_eq!(r.types, "");
}

#[test]
fn parse_data_of_nothing() {
    let r = parse_data(vec![], &vec![], &vec![]).unwrap();
    assert!(r.spells.is_empty());
    assert_eq!(r.keys, "");
}

#[test]
fn parse_data_refuses_a_level_that_is_no_number() {
    let r = parse_data(vec![entry("A", "SpellData", 0, &[("Level", "high")])], &vec![], &layers());
    assert_eq!(r, Err(EncodeError::BadLevel));
}

#[test]
fn parse_data_refuses_an_unknown_base() {
    let entries = vec![entry("A", "SpellData", 0, &[("Using", "B")])];
    let r = parse_data(entries, &vec![], &layers());
    assert_eq!(r, Err(EncodeError::UnknownBase));
    let resolver = Resolver::new(vec![entry("A", "SpellData", 0, &[("Using", "B")])]);
    assert!(!bases_known(&resolver));
}

#[test]
fn parse_data_refuses_an_unknown_layer() {
    let r = parse_data(vec![entry("A", "SpellData", 4, &[])], &vec![], &layers());
    assert_eq!(r, Err(EncodeError::UnknownLayer));
}

#[test]
fn parse_data_refuses_more_names_than_tokens() {
    let names: Vec<String> = (0..12653).map(|i| format!("k{}", i)).collect();
    let mut e = Stats::new();
    e.id = "A".to_string();
    e.data = names.iter().map(|k| (k.clone(), String::new())).collect();
    // with Using and mod there are 12655 names, one more than there are tokens
    let r = parse_data(vec![e], &vec![], &layers());
    assert_eq!(r, Err(EncodeError::TooManyKeys));
    let mut e = Stats::new();
    e.id = "A".to_string();
    e.data = names.iter().take(12652).map(|k| (k.clone(), String::new())).collect();
    assert!(parse_data(vec![e], &vec![], &layers()).is_ok());
}

#[test]
fn parse_data_does_not_depend_on_the_order_of_the_groups() {
    let a = || entry("Zone_A", "SpellData", 0, &[("Level", "1")]);
    let b = || entry("Target_B", "SpellData", 0, &[("Level", "1")]);
    let one = parse_data(vec![a(), b()], &vec![], &layers()).unwrap();
    let two = parse_data(vec![b(), a()], &vec![], &layers()).unwrap();
    assert_eq!(one.spells, two.spells);
    assert_eq!(one.spells.len(), 2);
    assert!(one.spells[0].ends_with("\00\0Base"));
    assert!(one.spells[1].ends_with("\01\0Base"));
}

#[test]
fn two_layers_from_files_to_records() {
    let lang = load_lang(&vec![
        ("h123".to_string(), "Fireball".to_string()),
        ("h456".to_string(), "A ball of fire.".to_string()),
    ]);
    let tips = Tooltips::new();
    let files = vec![
        SourceFile {
            name: "Spell_Target.txt".to_string(),
            weight: 0,
            content: "new entry \"Target_Fireball\"\ntype \"SpellData\"\ndata \"SpellType\" \"Target\"\n\
                      data \"DisplayName\" \"h123;1\"\ndata \"Level\" \"3\"\n"
                .to_string(),
        },
        SourceFile {
            name: "Spell_Target.txt".to_string(),
            weight: 1,
            content: "new entry \"Target_Fireball\"\ntype \"SpellData\"\nusing \"Target_Fireball\"\n\
                      data \"Description\" \"h456;2\"\n"
                .to_string(),
        },
    ];
    let (list, types) = load_spell(&files, &lang, &tips);
    assert_eq!(types, vec!["Target".to_string()]);
    let (copy, _) = load_spell(&files, &lang, &tips);
    let resolver = Resolver::new(copy);
    assert_eq!(resolver.get_attr("Target_Fireball", "DisplayName"), Some("Fireball".to_string()));
    assert_eq!(
        resolver.get_attr("Target_Fireball", "Description"),
        Some("A ball of fire.".to_string())
    );
    let r = parse_data(list, &types, &layers()).unwrap();
    assert_eq!(
        r.spells,
        vec![
            "\u{3}\u{4}\u{5}\u{6}\u{7}\0Target\0Fireball\03\00\0Base".to_string(),
            "\u{6}\u{e}\u{f}\u{7}\01\0A ball of fire.\00\0Patch".to_string(),
        ]
    );
    assert_eq!(r.keys, "SpellType,DisplayName,Level,Using,mod,Description,i");
    assert_eq!(r.types, "Target");
}
