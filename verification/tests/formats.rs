use kv_store::compaction::{read_tables, write_chunks};
use kv_store::disk::{make_level_path, make_manifest_path, make_manifest_tmp_path, make_table_path, make_wal_path, Effect};
use kv_store::error::StoreError;
use kv_store::manifest::{get_next_ids, make_table_name, parse_manifest, render_manifest, ManifestLine};
use kv_store::merge::merge;
use kv_store::search::make_not_found;
use kv_store::storage::KVError;
use kv_store::table::{make_pair, read_table, search, Entry, Info, Memtable, MemtableIter, SSTableIter};
use kv_store::text;
use kv_store::text::{parse_decimal, split_lines, split_str, splitn_str, str_eq, str_is_blank, str_precedes, to_chars, to_decimal};
use kv_store::wal::{log_delete, log_put, put_all, read_operation, replay_wal};

fn live(value: &str) -> Info {
    Info { value: value.to_string(), deleted: false }
}

fn dead() -> Info {
    Info { value: "0".to_string(), deleted: true }
}

fn pair(key: &str, info: Info) -> (String, Info) {
    (key.to_string(), info)
}

fn show(v: &[(String, Info)]) -> Vec<(String, String, bool)> {
    v.iter().map(|p| (p.0.clone(), p.1.value.clone(), p.1.deleted)).collect()
}

fn shown(key: &str, value: &str, deleted: bool) -> (String, String, bool) {
    (key.to_string(), value.to_string(), deleted)
}

fn show_levels(levels: &[Vec<ManifestLine>]) -> Vec<Vec<String>> {
    levels
        .iter()
        .map(|level| {
            level.iter().map(|l| format!("{}|{}|{}", l.start_key, l.end_key, l.sst_name)).collect()
        })
        .collect()
}

const WORDS: [&str; 12] =
    ["", "a", "ab", "b", "B", "aa", "\u{e9}", "\u{ffff}", "\u{10000}", "a\u{0}", "z", "\u{d7ff}"];

#[test]
fn strings_are_ordered_as_by_std() {
    for a in WORDS {
        for b in WORDS {
            assert_eq!(str_precedes(a, b), a < b, "{a:?} {b:?}");
            assert_eq!(str_eq(a, b), a == b, "{a:?} {b:?}");
        }
        assert_eq!(to_chars(a), a.chars().collect::<Vec<char>>());
        assert_eq!(text::concat(a, "x"), format!("{a}x"));
    }
}

#[test]
fn white_space_is_that_of_std() {
    for c in '\u{0}'..='\u{10ffff}' {
        let s = c.to_string();
        assert_eq!(str_is_blank(&s), s.trim().is_empty(), "{c:?}");
    }
    assert!(str_is_blank(""));
    assert!(str_is_blank(" \t\u{3000}"));
    assert!(!str_is_blank("  x "));
}

#[test]
fn strings_are_split_as_by_std() {
    for s in ["", "a", "a:b", ":", "a::b:", "x:y:z", "-a-:b", "\u{e9}:\u{e9}"] {
        assert_eq!(split_str(s, ':'), s.split(':').collect::<Vec<&str>>(), "{s:?}");
        for n in 0..5 {
            assert_eq!(splitn_str(s, n, ':'), s.splitn(n, ':').collect::<Vec<&str>>(), "{s:?}");
        }
    }
}

#[test]
fn lines_are_those_of_std() {
    for s in ["", "\n", "a", "a\n", "a\r\nb", "a\rb\n", "\r\n\r\n", "a\n\nb\r", "a\r\r\nb\n"] {
        let lines: Vec<&str> = s.lines().collect();
        assert_eq!(split_lines(s), lines, "{s:?}");
    }
}

#[test]
fn numbers_are_written_and_read() {
    for n in [0, 1, 9, 10, 42, 100, 1999, usize::MAX - 1, usize::MAX] {
        assert_eq!(to_decimal(n), n.to_string());
        assert_eq!(parse_decimal(&n.to_string()), Some(n));
    }
    assert_eq!(parse_decimal("007"), Some(7));
    assert_eq!(parse_decimal("18446744073709551616"), "18446744073709551616".parse().ok());
    assert_eq!(parse_decimal("99999999999999999999999"), None);
    assert_eq!(parse_decimal("1\u{660}"), None);
}

#[test]
fn paths_lie_in_the_directory() {
    assert_eq!(make_manifest_path("d"), "d/MANIFEST.txt");
    assert_eq!(make_manifest_tmp_path("d"), "d/MANIFEST.tmp");
    assert_eq!(make_wal_path("d"), "d/wal.db");
    assert_eq!(make_level_path("d", 12), "d/l12");
    assert_eq!(make_table_path("d", 3, "sst-7.json"), "d/l3/sst-7.json");
    assert_eq!(make_table_name(10), "sst-10.json");
}

#[test]
fn an_entry_is_a_line_of_json() {
    let entry = Entry::new("k".to_string(), live("v"));
    assert_eq!(entry.to_string(), "{\"deleted\":false,\"key\":\"k\",\"value\":\"v\"}");
    let entry = Entry::new("a\"\\\n\r\t\u{1}\u{7f}\u{e9}".to_string(), dead());
    let line = entry.to_string();
    assert_eq!(
        line,
        "{\"deleted\":true,\"key\":\"a\\\"\\\\\\n\\r\\t\\u0001\u{7f}\u{e9}\",\"value\":\"0\"}"
    );
    let back = read_table(&line).unwrap();
    assert_eq!(show(&back), vec![shown("a\"\\\n\r\t\u{1}\u{7f}\u{e9}", "0", true)]);
}

#[test]
fn a_table_in_memory_holds_one_info_for_a_key() {
    let mut memtable = Memtable::new();
    assert_eq!(memtable.len(), 0);
    assert_eq!(memtable.get("a"), Err(KVError::NotFound));
    for (key, info) in [("m", live("1")), ("z", live("2")), ("a", live("3")), ("m", live("4"))] {
        memtable.insert(Entry::new(key.to_string(), info));
    }
    assert_eq!(memtable.len(), 3);
    assert_eq!(memtable.get("m"), Ok("4".to_string()));
    assert_eq!(memtable.get("n"), Err(KVError::NotFound));
    memtable.insert(Entry::new("a".to_string(), dead()));
    assert_eq!(memtable.get("a"), Err(KVError::Deleted));
    let mut iter = MemtableIter::new(&memtable);
    let mut keys = Vec::new();
    while let Some((key, _)) = iter.next() {
        keys.push(key);
    }
    assert_eq!(keys, vec!["a", "m", "z"]);
    assert!(iter.next().is_none());
    let copy = memtable.clone();
    memtable.clear();
    assert_eq!(copy.get("m"), Ok("4".to_string()));
    assert_eq!(copy.len(), 3);
    assert_eq!(memtable.len(), 0);
    assert_eq!(memtable.get("m"), Err(KVError::NotFound));
}

#[test]
fn a_table_is_walked_line_by_line() {
    let content = "{\"value\":\"1\",\"key\":\"a\",\"deleted\":false, \"more\":[1]}\r\n\
                   {\"key\":\"b\",\"key\":\"c\",\"value\":\"2\",\"deleted\":true}";
    let mut iter = SSTableIter::new(content);
    let first = iter.next().unwrap().unwrap();
    let second = iter.next().unwrap().unwrap();
    assert_eq!(
        show(&[first, second]),
        vec![shown("a", "1", false), shown("c", "2", true)]
    );
    assert!(iter.next().unwrap().is_none());
    assert!(iter.next().unwrap().is_none());
}

#[test]
fn lines_that_stand_for_no_pair() {
    for (line, error) in [
        ("", StoreError::BadJson),
        ("{\"key\":\"a\"", StoreError::BadJson),
        ("{} {}", StoreError::BadJson),
        ("{}", StoreError::BadRecord),
        ("null", StoreError::BadRecord),
        ("\"key\"", StoreError::BadRecord),
        ("{\"key\":\"a\",\"value\":1,\"deleted\":false}", StoreError::BadRecord),
        ("{\"key\":\"a\",\"value\":\"1\",\"deleted\":\"false\"}", StoreError::BadRecord),
        ("{\"key\":null,\"value\":\"1\",\"deleted\":false}", StoreError::BadRecord),
    ] {
        assert_eq!(read_table(&format!("{line}\n")).err(), Some(error), "{line}");
        assert_eq!(search(&format!("{line}\n"), "a").err(), Some(error), "{line}");
    }
    assert!(read_table("").unwrap().is_empty());
    assert!(search("", "a").unwrap().is_none());
}

#[test]
fn a_search_takes_the_first_of_equal_keys() {
    let content = "{\"key\":\"a\",\"value\":\"1\",\"deleted\":false}\n\
                   {\"key\":\"a\",\"value\":\"2\",\"deleted\":true}\n";
    let info = search(content, "a").unwrap().unwrap();
    assert_eq!((info.value.as_str(), info.deleted), ("1", false));
    assert_eq!(make_not_found("k"), "Key k not found");
}

#[test]
fn the_log_is_json_too() {
    assert_eq!(log_put("k", "v"), "{\"key\":\"k\",\"op\":\"put\",\"value\":\"v\"}");
    assert_eq!(log_delete("k"), "{\"key\":\"k\",\"op\":\"delete\"}");
    let log = format!("{}\n{}\n{}\n", log_put("a", "1"), log_put("b", "x\ny"), log_delete("a"));
    let mut memtable = Memtable::new();
    memtable.insert(Entry::new("c".to_string(), live("3")));
    assert_eq!(replay_wal(&log, &mut memtable), Ok(()));
    assert_eq!(memtable.get("a"), Err(KVError::Deleted));
    assert_eq!(memtable.get("b"), Ok("x\ny".to_string()));
    assert_eq!(memtable.get("c"), Ok("3".to_string()));
}

#[test]
fn members_make_pairs() {
    let text = |s: &str| Some(s.to_string());
    let p = make_pair(text("k"), text("v"), Some(true)).unwrap();
    assert_eq!(show(&[p]), vec![shown("k", "v", true)]);
    assert_eq!(make_pair(None, text("v"), Some(true)).err(), Some(StoreError::BadRecord));
    assert_eq!(make_pair(text("k"), None, Some(true)).err(), Some(StoreError::BadRecord));
    assert_eq!(make_pair(text("k"), text("v"), None).err(), Some(StoreError::BadRecord));
}

#[test]
fn operations_make_entries() {
    let text = |s: &str| Some(s.to_string());
    let entries = vec![
        read_operation(text("put"), text("a"), text("1")).unwrap(),
        read_operation(text("put"), text("b"), text("2")).unwrap(),
        read_operation(text("delete"), text("a"), None).unwrap(),
        read_operation(text("put"), text("b"), text("3")).unwrap(),
    ];
    let mut memtable = Memtable::new();
    put_all(entries, &mut memtable);
    assert_eq!(memtable.get("a"), Err(KVError::Deleted));
    assert_eq!(memtable.get("b"), Ok("3".to_string()));
    assert_eq!(memtable.len(), 2);
    assert_eq!(read_operation(text("put"), text("a"), None).err(), Some(StoreError::BadRecord));
    assert_eq!(read_operation(None, text("a"), text("1")).err(), Some(StoreError::BadRecord));
    assert_eq!(read_operation(text("put"), None, text("1")).err(), Some(StoreError::BadRecord));
}

#[test]
fn a_line_is_added_with_its_end() {
    let mut content = "a\n".to_string();
    text::add_line(&mut content, "b");
    text::add_line(&mut content, "");
    assert_eq!(content, "a\nb\n\n");
}

#[test]
fn a_manifest_lists_levels() {
    let levels = parse_manifest(
        "[L0]\nsst-0.json\n  \nanything at all\n[L7]\na-b:sst-0.json:x\n[L]\n-:n\n",
    );
    assert_eq!(levels.err(), Some(StoreError::BadManifest));
    let levels = parse_manifest(
        "\n[L0]\r\nsst-0.json\r\n  \nanything: at-all\n[L7]\na-b-c:sst-0.json:x\n-:n\n[L\u{663}]\n",
    )
    .unwrap();
    assert_eq!(
        show_levels(&levels),
        vec![
            vec!["NA|NA|sst-0.json".to_string(), "NA|NA|anything: at-all".to_string()],
            vec!["a|b|sst-0.json".to_string(), "||n".to_string()],
            vec![],
        ]
    );
    assert!(parse_manifest("").unwrap().is_empty());
}

#[test]
fn manifests_that_list_nothing() {
    for content in ["sst-0.json\n", "[L0]\n[L1]\nsst-0.json\n", "[L0]\n[L1]\na:b\n", "[l0]\n", "[L0] \n"] {
        assert_eq!(parse_manifest(content).err(), Some(StoreError::BadManifest), "{content}");
    }
}

#[test]
fn a_manifest_reads_back() {
    let line = |start: &str, end: &str, name: &str| ManifestLine {
        start_key: start.to_string(),
        end_key: end.to_string(),
        sst_name: name.to_string(),
    };
    let levels = vec![
        vec![line("NA", "NA", "sst-0.json"), line("NA", "NA", "sst-1.json")],
        vec![],
        vec![line("a", "m z", "sst-0.json"), line("", "\u{e9}", "sst-3.json")],
    ];
    let content = render_manifest(&levels);
    assert_eq!(
        content,
        "[L0]\nsst-0.json\nsst-1.json\n[L1]\n[L2]\na-m z:sst-0.json\n-\u{e9}:sst-3.json\n"
    );
    assert_eq!(show_levels(&parse_manifest(&content).unwrap()), show_levels(&levels));
}

#[test]
fn keys_with_a_hyphen_do_not_read_back_from_a_manifest() {
    let levels = vec![
        vec![],
        vec![ManifestLine {
            start_key: "user-1".to_string(),
            end_key: "user-9".to_string(),
            sst_name: "sst-0.json".to_string(),
        }],
    ];
    let back = parse_manifest(&render_manifest(&levels)).unwrap();
    assert_eq!(show_levels(&back), vec![vec![], vec!["user|1|sst-0.json".to_string()]]);
}

#[test]
fn next_numbers_follow_the_last_table() {
    assert_eq!(get_next_ids("[L0]\n").unwrap(), vec![0]);
    assert_eq!(get_next_ids("").unwrap(), Vec::<usize>::new());
    assert_eq!(get_next_ids("sst-4.json\n").unwrap(), Vec::<usize>::new());
    assert_eq!(get_next_ids("[L0]\nsst-7.json\nsst-3.json\n").unwrap(), vec![4]);
    assert_eq!(get_next_ids("[L0]\nsst-007.json\n[L1]\na-b:sst-5.json\n[L2]\n").unwrap(), vec![8, 0, 0]);
    assert_eq!(get_next_ids("[L0]\nX9-12.json\nsst-1.json.bak\nsst-x.json\n-3.json\n").unwrap(), vec![13]);
    assert_eq!(get_next_ids("[L0]\nsst-.json\ns t-5.json\nsst-5xjson\n").unwrap(), vec![0]);
    assert_eq!(get_next_ids("[L0]\nsst-\u{663}.json\n").err(), Some(StoreError::BadNumber));
    assert_eq!(get_next_ids("sst-99999999999999999999999.json\n").err(), Some(StoreError::BadNumber));
}

#[test]
fn a_merge_keeps_what_is_newest() {
    let tables = vec![
        vec![pair("b", dead()), pair("d", live("new"))],
        vec![],
        vec![pair("a", live("1")), pair("b", live("2")), pair("d", live("old"))],
        vec![pair("a", live("old")), pair("c", live("3")), pair("e", dead())],
    ];
    assert_eq!(
        show(&merge(&tables)),
        vec![shown("a", "1", false), shown("c", "3", false), shown("d", "new", false)]
    );
    assert!(merge(&vec![]).is_empty());
}

#[test]
fn a_merge_sorts_what_is_not() {
    let tables = vec![
        vec![pair("c", live("1")), pair("a", live("2")), pair("c", live("3"))],
        vec![pair("b", live("4")), pair("a", live("5"))],
    ];
    assert_eq!(
        show(&merge(&tables)),
        vec![shown("a", "5", false), shown("b", "4", false), shown("c", "1", false)]
    );
}

#[test]
fn tables_are_read_until_one_is_wrong() {
    let good = "{\"key\":\"a\",\"value\":\"1\",\"deleted\":false}\n".to_string();
    let tables = read_tables(&vec![good.clone(), String::new()]).unwrap();
    assert_eq!(tables.len(), 2);
    assert_eq!(show(&tables[0]), vec![shown("a", "1", false)]);
    let error = read_tables(&vec![good, "{}\n".to_string(), "{\n".to_string()]).err();
    assert_eq!(error, Some(StoreError::BadRecord));
}

#[test]
fn chunks_are_full_but_for_the_last() {
    let v: Vec<(String, Info)> =
        (0..4001).map(|i| pair(&format!("{i:04}"), live("v"))).collect();
    let (effects, added) = write_chunks("d", 2, &v, 7).unwrap();
    let listed: Vec<String> =
        added.iter().map(|l| format!("{}-{}:{}", l.start_key, l.end_key, l.sst_name)).collect();
    assert_eq!(listed, vec!["0000-1999:sst-7.json", "2000-3999:sst-8.json", "4000-4000:sst-9.json"]);
    assert_eq!(effects.len(), 6);
    assert_eq!(
        effects[4],
        Effect::WriteFile {
            path: "d/l2/sst-9.json".to_string(),
            content: "{\"deleted\":false,\"key\":\"4000\",\"value\":\"v\"}\n".to_string(),
        }
    );
    assert_eq!(effects[5], Effect::SyncParent { path: "d/l2/sst-9.json".to_string() });
    let (effects, added) = write_chunks("d", 2, &vec![], 7).unwrap();
    assert!(effects.is_empty() && added.is_empty());
}

#[test]
fn chunks_need_numbers() {
    let v: Vec<(String, Info)> =
        (0..2001).map(|i| pair(&format!("{i:04}"), live("v"))).collect();
    assert!(write_chunks("d", 1, &v, usize::MAX - 2).is_some());
    assert!(write_chunks("d", 1, &v, usize::MAX - 1).is_none());
}
