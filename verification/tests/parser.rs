use spellpack::entry::Stats;
use spellpack::lookup::{load_lang, Localization, Tooltips};
use spellpack::parser::{parse_spell, payload_of, plain_value, split_lines, store, transform, upcast_text};
use spellpack::source::{collect_types, is_stat_file, load_spell, merge, SourceFile};

fn lang() -> Localization {
    load_lang(&vec![
        ("h123".to_string(), "Fireball".to_string()),
        ("h456".to_string(), "A ball of fire.".to_string()),
    ])
}

fn tips() -> Tooltips {
    let mut t = Tooltips::new();
    // "1vfqu3h" is the hash of "hello world!"
    t.insert("1vfqu3h".to_string(), "Upcast".to_string(), "More dice.".to_string());
    t
}

fn lines(text: &str) -> Vec<String> {
    let chars: Vec<char> = text.chars().collect();
    split_lines(&chars).iter().map(|l| l.iter().collect()).collect()
}

fn pairs(s: &Stats) -> Vec<(&str, &str)> {
    s.data.iter().map(|(k, v)| (k.as_str(), v.as_str())).collect()
}

#[test]
fn split_lines_as_std_does() {
    for text in ["", "a", "a\n", "a\nb", "a\r\nb\r\n", "\n", "\n\n", "a\r", "a\rb\n", "\r\n", "a\n\r", "x\r\r\ny"] {
        let expected: Vec<String> = text.lines().map(|l| l.to_string()).collect();
        assert_eq!(lines(text), expected, "{:?}", text);
    }
}

#[test]
fn payload_skips_the_front_and_the_last_character() {
    let line: Vec<char> = "using \"Base\"".chars().collect();
    assert_eq!(payload_of(&line, 7), "Base");
    assert_eq!(payload_of(&line, 11), "");
    assert_eq!(payload_of(&line, 12), "");
    assert_eq!(payload_of(&line, 40), "");
}

#[test]
fn parse_spell_reads_an_entry() {
    let text = "new entry \"Target_Fireball\"\n\
                type \"SpellData\"\n\
                data \"SpellType\" \"Target\"\n\
                using \"Target_Base\"\n\
                data \"DisplayName\" \"h123;1\"\n\
                data \"Description\" \"Deal DealDamage(1d6,Fire) now\"\n\
                data \"TooltipUpcastDescription\" \"hello world!\"\n\
                data \"Cooldown\" \"unknown\"\n\
                data \"Flags\" \"A;B;C\"\n\
                some other line\n\
                data \"broken\n";
    let list = parse_spell(text, 2, &lang(), &tips());
    assert_eq!(list.len(), 1);
    assert_eq!(list[0].id, "Target_Fireball");
    assert_eq!(list[0].stats_type, "SpellData");
    assert_eq!(list[0].weight, 2);
    assert_eq!(
        pairs(&list[0]),
        vec![
            ("SpellType", "Target"),
            ("Using", "Target_Base"),
            ("DisplayName", "Fireball"),
            ("Description", "Deal <b>DealDamage(1d6,Fire)</b> now"),
            ("TooltipUpcastDescription", "Upcast<br>More dice."),
            ("Cooldown", ""),
            ("Flags", "A\u{2}B\u{2}C"),
        ]
    );
}

#[test]
fn parse_spell_keeps_the_order_of_the_file_and_the_weight() {
    let text = "new entry \"B\"\r\ntype \"X\"\r\n\r\nnew entry \"A\"\r\nnew \"C\"\r\ndata \"k\" \"v\"";
    let list = parse_spell(text, 7, &lang(), &tips());
    let ids: Vec<&str> = list.iter().map(|s| s.id.as_str()).collect();
    assert_eq!(ids, vec!["B", "A", "C"]);
    assert!(list.iter().all(|s| s.weight == 7));
    assert_eq!(list[0].stats_type, "X");
    assert_eq!(list[1].stats_type, "");
    assert_eq!(pairs(&list[2]), vec![("k", "v")]);
}

#[test]
fn parse_spell_drops_entries_without_an_id() {
    let text = "data \"k\" \"v\"\nnew entry \"\"\ndata \"k\" \"v\"\nnew\ntype \"T\"\n";
    assert!(parse_spell(text, 0, &lang(), &tips()).is_empty());
    assert!(parse_spell("", 0, &lang(), &tips()).is_empty());
}

#[test]
fn parse_spell_skips_data_lines_without_exactly_one_pair() {
    let text = "new entry \"A\"\ndata \"a\" \"1\" \"b\" \"2\"\ndata \"c\"\ndata \"d\" \"4\"\n";
    let list = parse_spell(text, 0, &lang(), &tips());
    assert_eq!(pairs(&list[0]), vec![("d", "4")]);
}

#[test]
fn a_later_line_replaces_the_value_in_place() {
    let text = "new entry \"A\"\ndata \"a\" \"1\"\ndata \"b\" \"2\"\ndata \"a\" \"3\"\n";
    let list = parse_spell(text, 0, &lang(), &tips());
    assert_eq!(pairs(&list[0]), vec![("a", "3"), ("b", "2")]);
}

#[test]
fn known_id_resolves_and_unknown_id_falls_back() {
    let l = lang();
    assert_eq!(l.resolve("h123"), "Fireball");
    assert_eq!(l.resolve("h999"), "h999");
    assert_eq!(transform("Description", "h456;12", &l, &tips()), "A ball of fire.");
    assert_eq!(transform("ExtraDescription", "h999;12", &l, &tips()), "h999");
    assert_eq!(transform("DisplayName", "h123;x", &l, &tips()), "h123;x");
}

#[test]
fn store_cuts_the_serial_number_only_from_localized_texts() {
    assert_eq!(store("DisplayName", "h123;77", &lang(), &tips()), "Fireball");
    assert_eq!(store("Other", "h123;77", &lang(), &tips()), "h123\u{2}77");
}

#[test]
fn upcast_looks_up_the_hash_of_the_value() {
    assert_eq!(upcast_text("hello world!", &tips()), "Upcast<br>More dice.");
    assert_eq!(upcast_text("1vfqu3h", &tips()), "1vfqu3h");
    assert_eq!(transform("TooltipUpcastDescription", "nothing;here", &lang(), &tips()), "nothing;here");
}

#[test]
fn plain_value_of_each_kind() {
    assert_eq!(plain_value("unknown"), "");
    assert_eq!(plain_value("Unknown"), "Unknown");
    assert_eq!(plain_value("a;b;;c"), "a\u{2}b\u{2}\u{2}c");
    assert_eq!(plain_value(""), "");
}

#[test]
fn only_the_first_call_is_set_in_bold() {
    assert_eq!(
        transform("Success", "Heal(1d4); Hurt(2)", &lang(), &tips()),
        "<b>Heal(1d4)</b>\u{2} Hurt(2)"
    );
    // brackets and blanks may stand between the brackets of a call
    assert_eq!(
        transform("Success", "Heal(1d4) and Hurt(2)", &lang(), &tips()),
        "<b>Heal(1d4) and Hurt(2)</b>"
    );
}

#[test]
fn stat_files_are_told_by_their_name() {
    assert!(is_stat_file("Spell_Target.txt"));
    assert!(is_stat_file("Passive.txt"));
    assert!(is_stat_file("PassiveData"));
    assert!(!is_stat_file("spell_target.txt"));
    assert!(!is_stat_file("Status_BOOST.txt"));
    assert!(!is_stat_file("Spell"));
    assert!(!is_stat_file(""));
}

#[test]
fn load_spell_merges_the_stat_files_in_order() {
    let file = |name: &str, weight: u8, content: &str| SourceFile {
        name: name.to_string(),
        weight,
        content: content.to_string(),
    };
    let files = vec![
        file("Spell_Zone.txt", 0, "new entry \"Z\"\ndata \"SpellType\" \"Zone\"\n"),
        file("Status.txt", 0, "new entry \"S\"\ndata \"SpellType\" \"Status\"\n"),
        file("Passive.txt", 1, "new entry \"P\"\nnew entry \"Q\"\ndata \"SpellType\" \"Zone\"\n"),
        file("Spell_Target.txt", 1, "new entry \"T\"\ndata \"SpellType\" \"Target\"\n"),
    ];
    let (list, types) = load_spell(&files, &lang(), &tips());
    let ids: Vec<(&str, u8)> = list.iter().map(|s| (s.id.as_str(), s.weight)).collect();
    assert_eq!(ids, vec![("Z", 0), ("P", 1), ("Q", 1), ("T", 1)]);
    assert_eq!(types, vec!["Zone".to_string(), "Target".to_string()]);
}

#[test]
fn merge_of_nothing_is_nothing() {
    let (list, types) = merge(&vec![vec![], vec![]]);
    assert!(list.is_empty());
    assert!(types.is_empty());
    assert!(collect_types(&vec![Stats::new()]).is_empty());
}
