use kv_store::client::{parse_command, script_lines, Command};
use kv_store::disk::Effect;
use kv_store::error::StoreError;
use kv_store::handler;
use kv_store::storage::{KVStore, Step, LEVEL_LIMIT, TABLE_CAPACITY};
use std::collections::{BTreeMap, BTreeSet};

const DIR: &str = "data";
const MANIFEST: &str = "data/MANIFEST.txt";
const LOG: &str = "data/wal.db";

/// Files in memory.
#[derive(Clone, Default)]
struct Disk {
    files: BTreeMap<String, String>,
    dirs: BTreeSet<String>,
}

impl Disk {
    fn run(&mut self, effects: Vec<Effect>) {
        for effect in effects {
            self.apply(effect);
        }
    }

    fn apply(&mut self, effect: Effect) {
        match effect {
            Effect::CreateDir { path } => {
                self.dirs.insert(path);
            }
            Effect::CreateFile { path, content } | Effect::WriteFile { path, content } => {
                self.files.insert(path, content);
            }
            Effect::Append { path, content } => {
                self.files.get_mut(&path).expect("a log").push_str(&content);
            }
            Effect::SyncParent { path } => {
                assert!(self.files.contains_key(&path));
            }
            Effect::Rename { from, to } => {
                let content = self.files.remove(&from).expect("a file to rename");
                self.files.insert(to, content);
            }
            Effect::Remove { path } => {
                self.files.remove(&path).expect("a file to remove");
            }
        }
    }

    fn read(&self, path: &str) -> &str {
        self.files.get(path).unwrap_or_else(|| panic!("{path} is missing"))
    }

    fn text(&self, path: &str) -> Option<&str> {
        self.files.get(path).map(|content| content.as_str())
    }
}

/// A store with its files.
struct Store {
    kv: KVStore,
    disk: Disk,
}

impl Store {
    fn open(mut disk: Disk) -> Store {
        let (mut kv, effects) = KVStore::new(DIR.to_string(), disk.text(MANIFEST)).unwrap();
        disk.run(effects);
        let effects = kv.open_wal(disk.text(LOG)).unwrap();
        disk.run(effects);
        Store { kv, disk }
    }

    fn fresh() -> Store {
        Store::open(Disk::default())
    }

    fn reopen(self) -> Store {
        Store::open(self.disk)
    }

    fn get(&self, key: &str) -> Result<String, String> {
        let mut search = self.kv.get(key);
        while let Some(path) = search.wanted() {
            assert!(search.answer().is_none());
            search = search.step(self.disk.read(&path)).unwrap();
        }
        search.answer().unwrap()
    }

    /// Sets a key, and says whether the table in memory is then to be written out.
    fn log_put(&mut self, key: &str, value: &str) -> bool {
        let (effects, step) = self.kv.put(key.to_string(), value.to_string());
        self.disk.run(effects);
        assert!(step == Step::Flush || step == Step::Done);
        step == Step::Flush
    }

    fn put(&mut self, key: &str, value: &str) {
        let (effects, mut step) = self.kv.put(key.to_string(), value.to_string());
        self.disk.run(effects);
        loop {
            step = match step {
                Step::Flush => self.write_out(),
                Step::Compact => self.compact_all().1,
                Step::Clear => self.kv.clear(),
                Step::Done => return,
            };
        }
    }

    fn delete(&mut self, key: &str) {
        let effects = self.kv.delete(key);
        self.disk.run(effects);
    }

    fn write_out(&mut self) -> Step {
        let (effects, step) = self.kv.flush(self.disk.read(MANIFEST)).unwrap();
        self.disk.run(effects);
        step
    }

    /// Writes the table in memory out and empties it.
    fn flush(&mut self) {
        assert_eq!(self.write_out(), Step::Compact);
        assert_eq!(self.kv.clear(), Step::Done);
    }

    /// Merges tables while a level has too many, and says how often.
    fn compact(&mut self) -> usize {
        self.compact_all().0
    }

    fn compact_all(&mut self) -> (usize, Step) {
        let mut times = 0;
        let mut c = self.kv.compact(self.disk.read(MANIFEST)).unwrap();
        while c.due() {
            let mut contents = Vec::new();
            for path in self.kv.compaction_inputs(&c) {
                contents.push(self.disk.read(&path).to_string());
            }
            assert_eq!(c.step(), Step::Compact);
            let effects = self.kv.compact_level(&mut c, &contents).unwrap();
            self.disk.run(effects);
            times += 1;
        }
        (times, c.step())
    }

    fn manifest(&self) -> &str {
        self.disk.read(MANIFEST)
    }
}

fn missing(key: &str) -> Result<String, String> {
    Err(format!("Key {key} not found"))
}

fn found(value: &str) -> Result<String, String> {
    Ok(value.to_string())
}

/// Runs a script against a store as the server does, and checks each response.
fn run_test_file(store: &mut Store, contents: &str) {
    let mut expected: BTreeMap<String, String> = BTreeMap::new();
    for line in script_lines(contents) {
        match parse_command(&line) {
            Some(Command::Put { key, value }) => {
                store.put(&key, &value);
                let (status, response) = handler::put_key();
                assert_eq!(status, 200);
                assert_eq!(response.message, "Key set", "PUT {key} failed");
                expected.insert(key, value);
            }
            Some(Command::Get { key }) => {
                let (status, response) = handler::get_key(store.get(&key));
                if let Some(want) = expected.get(&key) {
                    assert_eq!(&response.value, want, "GET {key} returned wrong value");
                } else {
                    assert_eq!(status, 404, "GET {key} expected 404 for unknown key");
                }
            }
            _ => panic!("Unknown operation: {line}"),
        }
    }
}

#[test]
fn test_generated_file() {
    let mut store = Store::fresh();
    let mut contents = String::new();
    contents.push_str("PUT name Alice\n");
    contents.push_str("PUT age 30\n");
    contents.push_str("GET name\n");
    contents.push_str("GET age\n");
    contents.push_str("GET missing_key\n");
    run_test_file(&mut store, &contents);
}

#[test]
fn test_overwrite_key() {
    let mut store = Store::fresh();
    let script = "\
PUT color red
GET color
PUT color blue
GET color
";
    run_test_file(&mut store, script);
}

#[test]
fn a_fresh_store_makes_its_files() {
    let (mut kv, effects) = KVStore::new("d".to_string(), None).unwrap();
    assert_eq!(
        effects,
        vec![
            Effect::CreateFile { path: "d/MANIFEST.txt".to_string(), content: "[L0]\n".to_string() },
            Effect::CreateDir { path: "d/l0".to_string() },
            Effect::CreateDir { path: "d/l0".to_string() },
        ]
    );
    assert_eq!(
        kv.open_wal(None).unwrap(),
        vec![Effect::CreateFile { path: "d/wal.db".to_string(), content: "".to_string() }]
    );
    assert_eq!(Store::fresh().get("k"), missing("k"));
}

#[test]
fn opening_makes_a_directory_for_each_level() {
    let (_, effects) =
        KVStore::new("d".to_string(), Some("[L0]\nsst-4.json\n[L1]\n\n[L2]\n")).unwrap();
    let paths = ["d/l0", "d/l1", "d/l2", "d/l0"];
    assert_eq!(effects.len(), 4);
    for (effect, path) in effects.iter().zip(paths) {
        assert_eq!(effect, &Effect::CreateDir { path: path.to_string() });
    }
}

#[test]
fn puts_are_logged() {
    let mut store = Store::fresh();
    let (effects, step) = store.kv.put("k".to_string(), "v\n\"w\"".to_string());
    assert_eq!(step, Step::Done);
    assert_eq!(
        effects,
        vec![Effect::Append {
            path: LOG.to_string(),
            content: "{\"key\":\"k\",\"op\":\"put\",\"value\":\"v\\n\\\"w\\\"\"}\n".to_string(),
        }]
    );
    assert_eq!(
        store.kv.log("line"),
        vec![Effect::Append { path: LOG.to_string(), content: "line\n".to_string() }]
    );
    let effects = store.kv.delete("k");
    assert_eq!(
        effects,
        vec![Effect::Append {
            path: LOG.to_string(),
            content: "{\"key\":\"k\",\"op\":\"delete\"}\n".to_string(),
        }]
    );
}

#[test]
fn a_put_changes_one_key() {
    let mut store = Store::fresh();
    store.put("a", "1");
    store.put("b", "2");
    store.put("a", "3");
    assert_eq!(store.get("a"), found("3"));
    assert_eq!(store.get("b"), found("2"));
    assert_eq!(store.get("c"), missing("c"));
}

#[test]
fn a_deletion_changes_one_key() {
    let mut store = Store::fresh();
    store.put("a", "1");
    store.put("b", "2");
    store.flush();
    store.delete("a");
    store.delete("never there");
    assert_eq!(store.get("a"), missing("a"));
    assert_eq!(store.get("b"), found("2"));
    assert_eq!(store.get("never there"), missing("never there"));
    store.put("a", "again");
    assert_eq!(store.get("a"), found("again"));
}

#[test]
fn the_log_brings_everything_back() {
    let mut store = Store::fresh();
    store.put("a", "1");
    store.put("tricky\r\n\t\u{1}\u{2028}", "\"\\ \u{1F600}\r\n");
    store.put("b", "2");
    store.delete("a");
    let store = store.reopen();
    assert_eq!(store.get("a"), missing("a"));
    assert_eq!(store.get("b"), found("2"));
    assert_eq!(store.get("tricky\r\n\t\u{1}\u{2028}"), found("\"\\ \u{1F600}\r\n"));
}

#[test]
fn a_flush_writes_a_sorted_table() {
    let mut store = Store::fresh();
    store.put("b", "2");
    store.put("a", "1");
    store.put("B", "3");
    store.delete("b");
    let (effects, step) = store.kv.flush(store.disk.read(MANIFEST)).unwrap();
    assert_eq!(step, Step::Compact);
    let table = "{\"deleted\":false,\"key\":\"B\",\"value\":\"3\"}\n\
                 {\"deleted\":false,\"key\":\"a\",\"value\":\"1\"}\n\
                 {\"deleted\":true,\"key\":\"b\",\"value\":\"0\"}\n";
    assert_eq!(
        effects,
        vec![
            Effect::WriteFile { path: "data/l0/sst-0.json".to_string(), content: table.to_string() },
            Effect::SyncParent { path: "data/l0/sst-0.json".to_string() },
            Effect::WriteFile {
                path: "data/MANIFEST.tmp".to_string(),
                content: "[L0]\nsst-0.json\n".to_string(),
            },
            Effect::Rename { from: "data/MANIFEST.tmp".to_string(), to: MANIFEST.to_string() },
            Effect::SyncParent { path: MANIFEST.to_string() },
            Effect::WriteFile { path: LOG.to_string(), content: "".to_string() },
        ]
    );
    store.disk.run(effects);
    assert_eq!(store.get("a"), found("1"));
    assert_eq!(store.get("b"), missing("b"));
    assert_eq!(store.get("B"), found("3"));
}

#[test]
fn a_flush_leaves_the_table_in_memory() {
    let mut store = Store::fresh();
    store.put("b", "2");
    store.put("a", "1");
    store.delete("c");
    assert_eq!(store.write_out(), Step::Compact);
    assert_eq!(
        store.disk.read("data/l0/sst-0.json"),
        "{\"deleted\":false,\"key\":\"a\",\"value\":\"1\"}\n\
         {\"deleted\":false,\"key\":\"b\",\"value\":\"2\"}\n\
         {\"deleted\":true,\"key\":\"c\",\"value\":\"0\"}\n"
    );
    assert_eq!(store.manifest(), "[L0]\nsst-0.json\n");
    assert_eq!(store.disk.read(LOG), "");
    assert_eq!(store.kv.get("a").answer(), Some(found("1")));
    assert_eq!(store.kv.get("b").answer(), Some(found("2")));
    assert_eq!(store.kv.get("c").answer(), Some(missing("c")));
    assert_eq!(store.kv.clear(), Step::Done);
    assert!(store.kv.get("a").answer().is_none());
    assert_eq!(store.get("a"), found("1"));
    assert_eq!(store.get("c"), missing("c"));
}

#[test]
fn a_copy_of_a_store_is_its_own() {
    let mut store = Store::fresh();
    store.put("a", "1");
    let copy = store.kv.clone();
    store.put("a", "2");
    assert_eq!(copy.get("a").answer(), Some(found("1")));
    assert_eq!(store.get("a"), found("2"));
}

#[test]
fn a_level_that_is_not_due_is_left_alone() {
    let four = "[L0]\na-0.json\na-1.json\na-2.json\na-3.json\n";
    let (mut kv, _) = KVStore::new(DIR.to_string(), None).unwrap();
    let mut c = kv.compact(four).unwrap();
    assert!(!c.due());
    assert_eq!(c.step(), Step::Clear);
    assert_eq!(kv.compaction_inputs(&c).len(), 4);
    let nonsense = vec!["nonsense".to_string()];
    assert_eq!(kv.compact_level(&mut c, &nonsense), Ok(vec![]));
    assert_eq!((c.level, c.levels.len(), c.levels[0].len()), (0, 1, 4));
    let mut c = kv.compact("").unwrap();
    assert_eq!(kv.compact_level(&mut c, &nonsense), Ok(vec![]));
    assert_eq!((c.level, c.levels.len()), (0, 0));
}

#[test]
fn a_merge_that_keeps_nothing_needs_no_number() {
    let five = "[L0]\na-0.json\na-1.json\na-2.json\na-3.json\na-4.json\n";
    let (mut kv, _) = KVStore::new(DIR.to_string(), Some("")).unwrap();
    let mut c = kv.compact(five).unwrap();
    let row = "{\"key\":\"k\",\"value\":\"v\",\"deleted\":false}\n".to_string();
    assert_eq!(kv.compact_level(&mut c, &vec![row]), Err(StoreError::NoLevel));
    let effects = kv.compact_level(&mut c, &vec![String::new(); 5]).unwrap();
    assert_eq!(effects.len(), 1 + 5 + 3);
    assert_eq!(effects[0], Effect::CreateDir { path: "data/l0".to_string() });
    assert_eq!(effects[1], Effect::Remove { path: "data/l0/a-0.json".to_string() });
    assert_eq!(
        effects[6],
        Effect::WriteFile {
            path: "data/MANIFEST.tmp".to_string(),
            content: "[L0]\n[L1]\n".to_string(),
        }
    );
    assert_eq!((c.level, c.levels.len()), (1, 2));
}

#[test]
fn without_merges_any_keys_will_do() {
    let mut store = Store::fresh();
    let keys = ["a-b", "c:d", "e\nf", "-", ":", "", "plain"];
    for i in 0..LEVEL_LIMIT - 1 {
        for key in keys {
            store.put(key, &format!("{key}{i}"));
        }
        store.delete(keys[i]);
        store.flush();
        assert_eq!(store.compact(), 0);
        store = store.reopen();
    }
    store.delete("plain");
    store.put("c:d", "last");
    let last = LEVEL_LIMIT - 2;
    for key in keys {
        let expected = match key {
            "plain" => missing(key),
            "c:d" => found("last"),
            _ if key == keys[last] => missing(key),
            _ => found(&format!("{key}{last}")),
        };
        assert_eq!(store.get(key), expected, "{key:?}");
    }
}

#[test]
fn numbers_of_deeper_levels_start_again_after_a_restart() {
    let mut store = Store::fresh();
    store.put("early", "x");
    for _ in 0..LEVEL_LIMIT {
        store.flush();
    }
    store.compact();
    let mut store = store.reopen();
    assert_eq!(store.get("early"), found("x"));
    store.put("late", "y");
    store.flush();
    assert_eq!(store.get("early"), found("x"));
    for _ in 0..LEVEL_LIMIT - 1 {
        store.flush();
    }
    store.compact();
    assert_eq!(
        store.manifest(),
        "[L0]\n[L1]\nearly-early:sst-0.json\nlate-late:sst-0.json\n"
    );
    assert_eq!(store.get("late"), found("y"));
    assert_eq!(store.get("early"), missing("early"));
}

#[test]
fn a_put_after_a_deletion_survives_merges() {
    let mut store = Store::fresh();
    store.put("k", "old");
    for i in 0..LEVEL_LIMIT * LEVEL_LIMIT {
        if i == LEVEL_LIMIT + 1 {
            store.delete("k");
            store.put("k", "new");
        }
        store.put(&format!("filler{i}"), "x");
        store.flush();
        store.compact();
    }
    assert_eq!(store.get("k"), found("new"));
    assert_eq!(store.get("filler0"), found("x"));
    let store = store.reopen();
    assert_eq!(store.get("k"), found("new"));
}

#[test]
fn a_flush_leaves_every_answer() {
    let mut store = Store::fresh();
    store.put("a", "1");
    store.put("b", "1");
    store.flush();
    store.put("b", "2");
    store.put("c", "2");
    store.delete("a");
    let keys = ["a", "b", "c", "d"];
    let before: Vec<_> = keys.iter().map(|key| store.get(key)).collect();
    store.flush();
    let after: Vec<_> = keys.iter().map(|key| store.get(key)).collect();
    assert_eq!(before, after);
    assert_eq!(store.manifest(), "[L0]\nsst-0.json\nsst-1.json\n");
    assert_eq!(store.disk.read(LOG), "");
}

#[test]
fn a_flush_may_be_cut_short_anywhere() {
    let mut store = Store::fresh();
    store.put("a", "1");
    store.put("b", "1");
    store.flush();
    store.put("b", "2");
    store.delete("a");
    let keys = ["a", "b", "c"];
    let before: Vec<_> = keys.iter().map(|key| store.get(key)).collect();
    let mut disk = store.disk.clone();
    let (effects, _) = store.kv.flush(store.disk.read(MANIFEST)).unwrap();
    assert_eq!(effects.len(), 6);
    for effect in effects {
        let again = Store::open(disk.clone());
        let answers: Vec<_> = keys.iter().map(|key| again.get(key)).collect();
        assert_eq!(answers, before);
        disk.apply(effect);
    }
    let again = Store::open(disk);
    let answers: Vec<_> = keys.iter().map(|key| again.get(key)).collect();
    assert_eq!(answers, before);
}

#[test]
fn numbers_go_on_after_a_restart() {
    let mut store = Store::fresh();
    for i in 0..3 {
        store.put("k", &i.to_string());
        store.flush();
    }
    let mut store = store.reopen();
    store.put("k", "last");
    store.flush();
    assert_eq!(store.manifest(), "[L0]\nsst-0.json\nsst-1.json\nsst-2.json\nsst-3.json\n");
    assert_eq!(store.get("k"), found("last"));
}

#[test]
fn the_table_in_memory_is_full_at_its_capacity() {
    let mut store = Store::fresh();
    for i in 0..TABLE_CAPACITY - 1 {
        assert!(!store.log_put(&format!("key{i}"), "v"));
    }
    assert!(!store.log_put("key0", "again"));
    assert!(store.log_put("one more", "v"));
    assert!(!store.log_put("and another", "v"));
    assert!(!store.log_put("one more", "again"));
}

#[test]
fn deletions_count_but_do_not_fill_the_table() {
    let mut store = Store::fresh();
    for i in 0..TABLE_CAPACITY {
        store.delete(&format!("key{i}"));
    }
    assert!(store.log_put("key0", "v"));
    assert!(!store.log_put("one more", "v"));
}

#[test]
fn a_full_table_is_written_out() {
    let mut store = Store::fresh();
    for i in 0..TABLE_CAPACITY + 1 {
        store.put(&format!("key{i}"), &format!("value{i}"));
    }
    assert_eq!(store.manifest(), "[L0]\nsst-0.json\n");
    assert_eq!(store.disk.read("data/l0/sst-0.json").lines().count(), TABLE_CAPACITY);
    assert_eq!(store.disk.read(LOG).lines().count(), 1);
    for i in [0, 1, 77, TABLE_CAPACITY - 1, TABLE_CAPACITY] {
        assert_eq!(store.get(&format!("key{i}")), found(&format!("value{i}")));
    }
    let store = store.reopen();
    for i in [0, 1, 77, TABLE_CAPACITY - 1, TABLE_CAPACITY] {
        assert_eq!(store.get(&format!("key{i}")), found(&format!("value{i}")));
    }
}

#[test]
fn a_level_is_merged_at_its_limit() {
    let mut store = Store::fresh();
    for i in 0..LEVEL_LIMIT {
        store.put("k", &format!("v{i}"));
        store.put(&format!("only{i}"), "x");
        if i == 1 {
            store.delete("only0");
        }
        store.flush();
        let times = store.compact();
        assert_eq!(times, if i + 1 == LEVEL_LIMIT { 1 } else { 0 });
    }
    assert_eq!(store.manifest(), "[L0]\n[L1]\nk-only4:sst-0.json\n");
    assert_eq!(
        store.disk.read("data/l1/sst-0.json"),
        "{\"deleted\":false,\"key\":\"k\",\"value\":\"v4\"}\n\
         {\"deleted\":false,\"key\":\"only1\",\"value\":\"x\"}\n\
         {\"deleted\":false,\"key\":\"only2\",\"value\":\"x\"}\n\
         {\"deleted\":false,\"key\":\"only3\",\"value\":\"x\"}\n\
         {\"deleted\":false,\"key\":\"only4\",\"value\":\"x\"}\n"
    );
    assert!(store.disk.dirs.contains("data/l1"));
    assert!(!store.disk.files.keys().any(|path| path.starts_with("data/l0/")));
    assert_eq!(store.get("k"), found("v4"));
    assert_eq!(store.get("only0"), missing("only0"));
    assert_eq!(store.get("only3"), found("x"));
    assert_eq!(store.get("a"), missing("a"));
    assert_eq!(store.get("z"), missing("z"));
}

#[test]
fn a_merge_writes_first_and_removes_then() {
    let mut store = Store::fresh();
    for i in 0..LEVEL_LIMIT {
        store.put("k", &format!("v{i}"));
        store.flush();
    }
    let mut c = store.kv.compact(store.disk.read(MANIFEST)).unwrap();
    let inputs = store.kv.compaction_inputs(&c);
    assert_eq!(
        inputs,
        vec![
            "data/l0/sst-4.json",
            "data/l0/sst-3.json",
            "data/l0/sst-2.json",
            "data/l0/sst-1.json",
            "data/l0/sst-0.json",
        ]
    );
    let contents: Vec<String> = inputs.iter().map(|p| store.disk.read(p).to_string()).collect();
    let effects = store.kv.compact_level(&mut c, &contents).unwrap();
    let mut expected = vec![
        Effect::CreateDir { path: "data/l1".to_string() },
        Effect::WriteFile {
            path: "data/l1/sst-0.json".to_string(),
            content: "{\"deleted\":false,\"key\":\"k\",\"value\":\"v4\"}\n".to_string(),
        },
        Effect::SyncParent { path: "data/l1/sst-0.json".to_string() },
    ];
    for i in 0..LEVEL_LIMIT {
        expected.push(Effect::Remove { path: format!("data/l0/sst-{i}.json") });
    }
    expected.push(Effect::WriteFile {
        path: "data/MANIFEST.tmp".to_string(),
        content: "[L0]\n[L1]\nk-k:sst-0.json\n".to_string(),
    });
    expected.push(Effect::Rename {
        from: "data/MANIFEST.tmp".to_string(),
        to: MANIFEST.to_string(),
    });
    expected.push(Effect::SyncParent { path: MANIFEST.to_string() });
    assert_eq!(effects, expected);
    assert!(!c.due());
}

#[test]
fn a_merge_may_be_cut_short_before_and_after_it_removes() {
    let mut store = Store::fresh();
    for i in 0..LEVEL_LIMIT {
        store.put("k", &format!("v{i}"));
        store.put(&format!("only{i}"), "x");
        store.flush();
    }
    let keys = ["k", "only0", "only3", "z"];
    let before: Vec<_> = keys.iter().map(|key| store.get(key)).collect();
    let mut disk = store.disk.clone();
    let mut c = store.kv.compact(store.disk.read(MANIFEST)).unwrap();
    let inputs = store.kv.compaction_inputs(&c);
    let contents: Vec<String> = inputs.iter().map(|p| store.disk.read(p).to_string()).collect();
    let effects = store.kv.compact_level(&mut c, &contents).unwrap();
    let all = effects.len();
    let writes = all - LEVEL_LIMIT - 3;
    for (n, effect) in effects.into_iter().enumerate() {
        if n <= writes || n >= all - 1 {
            let again = Store::open(disk.clone());
            let answers: Vec<_> = keys.iter().map(|key| again.get(key)).collect();
            assert_eq!(answers, before);
        }
        disk.apply(effect);
    }
    let again = Store::open(disk);
    let answers: Vec<_> = keys.iter().map(|key| again.get(key)).collect();
    assert_eq!(answers, before);
}

#[test]
fn merged_tables_come_before_older_ones() {
    let mut store = Store::fresh();
    for i in 0..2 * LEVEL_LIMIT {
        store.put("k", &format!("v{i}"));
        store.put(&format!("only{i}"), "x");
        store.flush();
        store.compact();
    }
    assert_eq!(store.manifest(), "[L0]\n[L1]\nk-only4:sst-0.json\nk-only9:sst-1.json\n");
    assert_eq!(store.get("k"), found("v9"));
    assert_eq!(store.get("only2"), found("x"));
    assert_eq!(store.get("only7"), found("x"));
}

#[test]
fn merges_go_on_level_by_level() {
    let mut store = Store::fresh();
    for i in 0..LEVEL_LIMIT * LEVEL_LIMIT {
        store.put("k", &format!("v{i}"));
        store.flush();
        store.compact();
    }
    assert_eq!(store.manifest(), "[L0]\n[L1]\n[L2]\nk-k:sst-0.json\n");
    assert_eq!(store.get("k"), found("v24"));
    let store = store.reopen();
    assert_eq!(store.get("k"), found("v24"));
}

#[test]
fn a_merge_of_deletions_leaves_no_table() {
    let mut store = Store::fresh();
    for _ in 0..LEVEL_LIMIT {
        store.delete("k");
        store.flush();
    }
    assert_eq!(store.compact(), 1);
    assert_eq!(store.manifest(), "[L0]\n[L1]\n");
    assert_eq!(store.get("k"), missing("k"));
}

#[test]
fn a_deleted_key_reappears_from_a_deeper_level() {
    let mut store = Store::fresh();
    store.put("k", "deep");
    for _ in 0..LEVEL_LIMIT {
        store.flush();
    }
    store.compact();
    assert_eq!(store.manifest(), "[L0]\n[L1]\nk-k:sst-0.json\n");
    store.delete("k");
    for _ in 0..LEVEL_LIMIT - 1 {
        store.flush();
    }
    assert_eq!(store.get("k"), missing("k"));
    store.flush();
    assert_eq!(store.get("k"), missing("k"));
    store.compact();
    assert_eq!(store.get("k"), found("deep"));
}

#[test]
fn a_merge_cuts_its_output_into_tables() {
    let mut store = Store::fresh();
    for i in 0..LEVEL_LIMIT * TABLE_CAPACITY {
        store.put(&format!("key{:05}", i % (TABLE_CAPACITY + 500)), &format!("{i}"));
    }
    assert_eq!(
        store.manifest(),
        "[L0]\n[L1]\nkey00000-key01999:sst-0.json\nkey02000-key02499:sst-1.json\n"
    );
    assert_eq!(store.disk.read("data/l1/sst-0.json").lines().count(), TABLE_CAPACITY);
    assert_eq!(store.disk.read("data/l1/sst-1.json").lines().count(), 500);
    for i in [0, 1, 499, 500, 1999, 2000, 2499] {
        let value = format!("{}", i + 3 * (TABLE_CAPACITY + 500));
        assert_eq!(store.get(&format!("key{i:05}")), found(&value));
    }
    assert_eq!(store.get("key02500"), missing("key02500"));
}

#[test]
fn a_large_merge_makes_the_next_level_due() {
    let five = "[L0]\na-0.json\na-1.json\na-2.json\na-3.json\na-4.json\n";
    let limit = (LEVEL_LIMIT - 1) * TABLE_CAPACITY;
    for (count, due) in [(limit, false), (limit + 1, true)] {
        let (mut kv, _) = KVStore::new(DIR.to_string(), Some(five)).unwrap();
        let mut c = kv.compact(five).unwrap();
        let mut content = String::new();
        for i in 0..count {
            content.push_str(&format!("{{\"key\":\"{i:05}\",\"value\":\"v\",\"deleted\":false}}\n"));
        }
        kv.compact_level(&mut c, &vec![content]).unwrap();
        assert_eq!(c.due(), due, "{count}");
    }
}

#[test]
fn a_manifest_without_a_level_takes_no_table() {
    let (mut kv, _) = KVStore::new(DIR.to_string(), Some("")).unwrap();
    assert_eq!(kv.flush("[L0]\n").err(), Some(StoreError::NoLevel));
    let (mut kv, _) = KVStore::new(DIR.to_string(), None).unwrap();
    assert_eq!(kv.flush("\n").err(), Some(StoreError::NoLevel));
}

#[test]
fn a_flush_keeps_the_table_when_it_fails() {
    let mut store = Store::fresh();
    store.put("k", "v");
    assert_eq!(store.kv.flush("not a level\n").err(), Some(StoreError::BadManifest));
    assert_eq!(store.get("k"), found("v"));
    assert!(store.kv.flush("[L0]\n").is_ok());
}

#[test]
fn numbers_can_run_out() {
    let last = format!("[L0]\nsst-{}.json\n", usize::MAX - 1);
    let (mut kv, _) = KVStore::new(DIR.to_string(), Some(&last)).unwrap();
    assert_eq!(kv.flush(&last).err(), Some(StoreError::OutOfNumbers));
    let over = format!("[L0]\nsst-{}.json\n", usize::MAX);
    assert_eq!(KVStore::new(DIR.to_string(), Some(&over)).err(), Some(StoreError::BadNumber));
}

#[test]
fn a_merge_needs_the_levels_of_its_manifest() {
    let five = "[L0]\na-0.json\na-1.json\na-2.json\na-3.json\na-4.json\n";
    let (mut kv, _) = KVStore::new(DIR.to_string(), Some("[L0]\n[L1]\n[L2]\n")).unwrap();
    let mut c = kv.compact(five).unwrap();
    assert!(c.due());
    let contents = vec![String::new()];
    assert_eq!(kv.compact_level(&mut c, &contents).err(), Some(StoreError::NoLevel));
    let contents = vec!["nonsense\n".to_string()];
    assert_eq!(kv.compact_level(&mut c, &contents).err(), Some(StoreError::BadJson));
    assert!(kv.compact("sst-0.json\n").err() == Some(StoreError::BadManifest));
}

#[test]
fn a_broken_log_is_not_taken_up() {
    let (mut kv, _) = KVStore::new(DIR.to_string(), None).unwrap();
    let put = "{\"op\":\"put\",\"key\":\"k\",\"value\":\"v\"}\n";
    for (line, error) in [
        ("{", StoreError::BadJson),
        ("", StoreError::BadJson),
        ("[]", StoreError::BadRecord),
        ("{\"op\":\"put\",\"key\":\"k\"}", StoreError::BadRecord),
        ("{\"op\":\"put\",\"key\":1,\"value\":\"v\"}", StoreError::BadRecord),
        ("{\"op\":\"put\",\"key\":\"k\",\"value\":true}", StoreError::BadRecord),
        ("{\"key\":\"k\",\"value\":\"v\"}", StoreError::BadRecord),
    ] {
        assert_eq!(kv.open_wal(Some(&format!("{put}{line}\n"))).err(), Some(error), "{line}");
        assert!(kv.get("k").answer().is_none());
    }
    assert!(kv.open_wal(Some(put)).is_ok());
    assert_eq!(kv.get("k").answer(), Some(found("v")));
}

#[test]
fn any_other_operation_in_the_log_is_a_deletion() {
    let (mut kv, _) = KVStore::new(DIR.to_string(), None).unwrap();
    kv.open_wal(Some(
        "{\"op\":\"put\",\"key\":\"a\",\"value\":\"1\"}\r\n{\"op\":\"PUT\",\"key\":\"a\",\"value\":\"2\"}",
    ))
    .unwrap();
    assert_eq!(kv.get("a").answer(), Some(missing("a")));
}

#[test]
fn a_broken_table_stops_a_read_only_before_the_key() {
    let (kv, _) = KVStore::new(DIR.to_string(), None).unwrap();
    let manifest = "[L0]\nsst-0.json\n";
    let line = "{\"key\":\"a\",\"value\":\"1\",\"deleted\":false}";
    let search = kv.get("a").step(manifest).unwrap();
    assert_eq!(search.wanted(), Some("data/l0/sst-0.json".to_string()));
    let search = search.step(&format!("{line}\nnonsense\n")).unwrap();
    assert_eq!(search.wanted(), None);
    assert_eq!(search.answer(), Some(found("1")));
    let search = kv.get("b").step(manifest).unwrap();
    assert_eq!(search.step(&format!("{line}\nnonsense\n")).err(), Some(StoreError::BadJson));
    let search = kv.get("b").step(manifest).unwrap();
    let short = "{\"key\":\"b\",\"value\":\"1\"}";
    assert_eq!(search.step(short).err(), Some(StoreError::BadRecord));
    assert_eq!(kv.get("b").step("sst-0.json").err(), Some(StoreError::BadManifest));
}

#[test]
fn a_read_looks_into_the_newest_tables_first() {
    let (kv, _) = KVStore::new(DIR.to_string(), None).unwrap();
    let manifest = "[L0]\nsst-0.json\nsst-1.json\n[L1]\na-c:sst-0.json\nd-f:sst-1.json\nb-e:sst-2.json\n[L2]\nb-b:sst-0.json\n";
    let mut search = kv.get("b").step(manifest).unwrap();
    let mut paths = Vec::new();
    while let Some(path) = search.wanted() {
        paths.push(path);
        search = search.step("").unwrap();
    }
    assert_eq!(
        paths,
        vec![
            "data/l0/sst-1.json",
            "data/l0/sst-0.json",
            "data/l1/sst-2.json",
            "data/l1/sst-0.json",
            "data/l2/sst-0.json",
        ]
    );
    assert_eq!(search.answer(), Some(missing("b")));
    let done = search.step("whatever").unwrap();
    assert_eq!(done.answer(), Some(missing("b")));
}
