//! The manifest: which tables there are on which level.

use crate::error::StoreError;
use crate::pattern;
use crate::pattern::{Pattern, LEVEL_PATTERN, TABLE_PATTERN};
use crate::text;
use crate::text::{parse_decimal, split_lines, split_str, str_is_blank, to_decimal};
use vstd::prelude::*;
use vstd::string::StringExecFns;

verus! {

/// A table of a level: its name, and the first and the last of its keys. The tables of level 0
/// are listed without their keys.
pub struct ManifestLine {
    pub start_key: String,
    pub end_key: String,
    pub sst_name: String,
}

/// What a `ManifestLine` holds.
pub struct LineView {
    pub start_key: Seq<char>,
    pub end_key: Seq<char>,
    pub sst_name: Seq<char>,
}

impl View for ManifestLine {
    type V = LineView;

    open spec fn view(&self) -> LineView {
        LineView { start_key: self.start_key@, end_key: self.end_key@, sst_name: self.sst_name@ }
    }
}

impl Clone for ManifestLine {
    fn clone(&self) -> (r: Self)
        ensures
            r@ == self@,
    {
        ManifestLine {
            start_key: self.start_key.clone(),
            end_key: self.end_key.clone(),
            sst_name: self.sst_name.clone(),
        }
    }
}

/// What the tables of a level hold.
pub open spec fn level_view(v: Seq<ManifestLine>) -> Seq<LineView> {
    v.map_values(|l: ManifestLine| l@)
}

/// What the levels hold.
pub open spec fn levels_view(v: Seq<Vec<ManifestLine>>) -> Seq<Seq<LineView>> {
    v.map_values(|l: Vec<ManifestLine>| level_view(l@))
}

/// A table of level 0.
pub open spec fn unkeyed(name: Seq<char>) -> LineView {
    LineView { start_key: "NA"@, end_key: "NA"@, sst_name: name }
}

/// The table that a line of a level above 0 lists, if it has a key range and a name.
pub open spec fn keyed(line: Seq<char>) -> Option<LineView> {
    let parts = text::split(line, ':');
    let keys = text::split(parts[0], '-');
    if keys.len() >= 2 && parts.len() >= 2 {
        Some(LineView { start_key: keys[0], end_key: keys[1], sst_name: parts[1] })
    } else {
        None
    }
}

/// The levels with one more table at the end of the last of them.
pub open spec fn add_table(levels: Seq<Seq<LineView>>, l: LineView) -> Seq<Seq<LineView>> {
    levels.update(levels.len() - 1, levels.last().push(l))
}

/// The levels after one more line of a manifest.
pub open spec fn parse_step(levels: Seq<Seq<LineView>>, line: Seq<char>) -> Result<
    Seq<Seq<LineView>>,
    StoreError,
> {
    if pattern::is_level_header(line) {
        Ok(levels.push(Seq::empty()))
    } else if text::is_blank(line) {
        Ok(levels)
    } else if levels.len() == 0 {
        Err(StoreError::BadManifest)
    } else if levels.len() == 1 {
        Ok(add_table(levels, unkeyed(line)))
    } else {
        match keyed(line) {
            Some(l) => Ok(add_table(levels, l)),
            None => Err(StoreError::BadManifest),
        }
    }
}

/// The levels that the lines of a manifest list.
pub open spec fn parse_lines(ls: Seq<Seq<char>>) -> Result<Seq<Seq<LineView>>, StoreError>
    decreases ls.len(),
{
    if ls.len() == 0 {
        Ok(Seq::empty())
    } else {
        match parse_lines(ls.drop_last()) {
            Err(e) => Err(e),
            Ok(levels) => parse_step(levels, ls.last()),
        }
    }
}

/// The levels that a manifest lists.
pub open spec fn manifest_levels(content: Seq<char>) -> Result<Seq<Seq<LineView>>, StoreError> {
    parse_lines(text::lines(content))
}

/// The numbers for the next tables after one more line of a manifest.
pub open spec fn ids_step(ids: Seq<usize>, line: Seq<char>) -> Result<Seq<usize>, StoreError> {
    if pattern::is_level_header(line) {
        Ok(ids.push(0))
    } else if pattern::is_table_name(line) {
        let digits = pattern::table_number(line);
        if text::is_decimal(digits) && text::number(digits) < usize::MAX {
            if ids.len() == 0 {
                Ok(ids)
            } else {
                Ok(ids.update(ids.len() - 1, (text::number(digits) + 1) as usize))
            }
        } else {
            Err(StoreError::BadNumber)
        }
    } else {
        Ok(ids)
    }
}

/// The numbers for the next tables that the lines of a manifest leave: for each level one more
/// than that of the last line there that is the name of a table and nothing else, or 0.
pub open spec fn ids_lines(ls: Seq<Seq<char>>) -> Result<Seq<usize>, StoreError>
    decreases ls.len(),
{
    if ls.len() == 0 {
        Ok(Seq::empty())
    } else {
        match ids_lines(ls.drop_last()) {
            Err(e) => Err(e),
            Ok(ids) => ids_step(ids, ls.last()),
        }
    }
}

/// The numbers for the next tables that a manifest leaves.
pub open spec fn manifest_ids(content: Seq<char>) -> Result<Seq<usize>, StoreError> {
    ids_lines(text::lines(content))
}

/// The line that starts a level.
pub open spec fn header(level: nat) -> Seq<char> {
    "[L"@ + text::decimal(level) + "]"@
}

/// The line that lists a table.
pub open spec fn table_line(level: nat, l: LineView) -> Seq<char> {
    if level == 0 {
        l.sst_name
    } else {
        l.start_key + "-"@ + l.end_key + ":"@ + l.sst_name
    }
}

/// The lines of a level.
pub open spec fn level_lines(level: nat, ls: Seq<LineView>) -> Seq<Seq<char>> {
    seq![header(level)] + ls.map_values(|l: LineView| table_line(level, l))
}

/// The lines of a manifest.
pub open spec fn manifest_lines(levels: Seq<Seq<LineView>>) -> Seq<Seq<char>>
    decreases levels.len(),
{
    if levels.len() == 0 {
        Seq::empty()
    } else {
        manifest_lines(levels.drop_last()) + level_lines(
            (levels.len() - 1) as nat,
            levels.last(),
        )
    }
}

/// The text of a manifest.
pub open spec fn manifest_text(levels: Seq<Seq<LineView>>) -> Seq<char> {
    text::unlines(manifest_lines(levels))
}

/// The name of the table with this number.
pub open spec fn table_name(id: nat) -> Seq<char> {
    "sst-"@ + text::decimal(id) + ".json"@
}

/// Reads the levels from the text of a manifest.
pub fn parse_manifest(content: &str) -> (r: Result<Vec<Vec<ManifestLine>>, StoreError>)
    ensures
        match r {
            Ok(levels) => manifest_levels(content@) == Ok::<Seq<Seq<LineView>>, StoreError>(
                levels_view(levels@),
            ),
            Err(e) => manifest_levels(content@) == Err::<Seq<Seq<LineView>>, StoreError>(e),
        },
{
    let lines = split_lines(content);
    let ghost ls = text::lines(content@);
    let level_pattern = Pattern::compile(LEVEL_PATTERN);
    let mut levels: Vec<Vec<ManifestLine>> = Vec::new();
    let mut i: usize = 0;
    assert(levels_view(levels@) =~= Seq::empty());
    assert(ls.take(0) =~= Seq::empty());
    while i < lines.len()
        invariant
            i <= lines@.len(),
            ls == text::lines(content@),
            text::views(lines@) == ls,
            level_pattern.source() == LEVEL_PATTERN@,
            parse_lines(ls.take(i as int)) == Ok::<Seq<Seq<LineView>>, StoreError>(
                levels_view(levels@),
            ),
        decreases lines.len() - i,
    {
        let line = lines[i].as_str();
        let ghost before = levels_view(levels@);
        proof {
            assert(ls[i as int] == line@);
            assert(ls.take(i + 1).drop_last() =~= ls.take(i as int));
            assert(ls.take(i + 1).last() == line@);
        }
        if level_pattern.matches(line) {
            let none: Vec<ManifestLine> = Vec::new();
            levels.push(none);
            assert(level_view(none@) =~= Seq::empty());
            assert(levels_view(levels@) =~= before.push(Seq::empty()));
        } else if !str_is_blank(line) {
            let l: ManifestLine = if levels.len() > 1 {
                let parts = split_str(line, ':');
                proof {
                    text::lemma_split_some(line@, ':');
                    assert(text::views(parts@).len() == parts@.len());
                    assert(text::views(parts@)[0] == parts@[0]@);
                }
                let keys = split_str(parts[0].as_str(), '-');
                assert(text::views(keys@).len() == keys@.len());
                if keys.len() < 2 || parts.len() < 2 {
                    proof {
                        lemma_parse_error(ls, i + 1, StoreError::BadManifest);
                    }
                    return Err(StoreError::BadManifest);
                }
                proof {
                    assert(text::views(parts@)[1] == parts@[1]@);
                    assert(text::views(keys@)[0] == keys@[0]@);
                    assert(text::views(keys@)[1] == keys@[1]@);
                }
                ManifestLine {
                    start_key: keys[0].clone(),
                    end_key: keys[1].clone(),
                    sst_name: parts[1].clone(),
                }
            } else {
                ManifestLine {
                    start_key: "NA".to_owned(),
                    end_key: "NA".to_owned(),
                    sst_name: lines[i].clone(),
                }
            };
            match levels.pop() {
                None => {
                    proof {
                        lemma_parse_error(ls, i + 1, StoreError::BadManifest);
                    }
                    return Err(StoreError::BadManifest);
                },
                Some(mut last) => {
                    let ghost view = level_view(last@);
                    last.push(l);
                    levels.push(last);
                    proof {
                        assert(level_view(last@) =~= view.push(l@));
                        assert(levels_view(levels@) =~= add_table(before, l@));
                    }
                },
            }
        }
        i += 1;
    }
    assert(ls.take(i as int) =~= ls);
    Ok(levels)
}

/// What is wrong with the first lines of a manifest is wrong with the manifest.
proof fn lemma_parse_error(ls: Seq<Seq<char>>, n: int, e: StoreError)
    requires
        0 <= n <= ls.len(),
        parse_lines(ls.take(n)) == Err::<Seq<Seq<LineView>>, StoreError>(e),
    ensures
        parse_lines(ls) == Err::<Seq<Seq<LineView>>, StoreError>(e),
    decreases ls.len() - n,
{
    if n == ls.len() {
        assert(ls.take(n) =~= ls);
    } else {
        assert(ls.take(n + 1).drop_last() =~= ls.take(n));
        lemma_parse_error(ls, n + 1, e);
    }
}

/// Reads the numbers for the next tables from the text of a manifest, one for each level.
pub fn get_next_ids(content: &str) -> (r: Result<Vec<usize>, StoreError>)
    ensures
        match r {
            Ok(ids) => manifest_ids(content@) == Ok::<Seq<usize>, StoreError>(ids@),
            Err(e) => manifest_ids(content@) == Err::<Seq<usize>, StoreError>(e),
        },
{
    let lines = split_lines(content);
    let ghost ls = text::lines(content@);
    let level_pattern = Pattern::compile(LEVEL_PATTERN);
    let table_pattern = Pattern::compile(TABLE_PATTERN);
    let mut ids: Vec<usize> = Vec::new();
    let mut i: usize = 0;
    assert(ls.take(0) =~= Seq::empty());
    while i < lines.len()
        invariant
            i <= lines@.len(),
            ls == text::lines(content@),
            text::views(lines@) == ls,
            level_pattern.source() == LEVEL_PATTERN@,
            table_pattern.source() == TABLE_PATTERN@,
            ids_lines(ls.take(i as int)) == Ok::<Seq<usize>, StoreError>(ids@),
        decreases lines.len() - i,
    {
        let line = lines[i].as_str();
        proof {
            assert(ls[i as int] == line@);
            assert(ls.take(i + 1).drop_last() =~= ls.take(i as int));
            assert(ls.take(i + 1).last() == line@);
        }
        if level_pattern.matches(line) {
            ids.push(0);
        } else if let Some(digits) = table_pattern.captured(line, "num") {
            let next: usize = match parse_decimal(digits.as_str()) {
                Some(number) if number < usize::MAX => number + 1,
                _ => {
                    proof {
                        lemma_ids_error(ls, i + 1, StoreError::BadNumber);
                    }
                    return Err(StoreError::BadNumber);
                },
            };
            let n = ids.len();
            if n > 0 {
                ids[n - 1] = next;
            }
        }
        i += 1;
    }
    assert(ls.take(i as int) =~= ls);
    Ok(ids)
}

proof fn lemma_ids_error(ls: Seq<Seq<char>>, n: int, e: StoreError)
    requires
        0 <= n <= ls.len(),
        ids_lines(ls.take(n)) == Err::<Seq<usize>, StoreError>(e),
    ensures
        ids_lines(ls) == Err::<Seq<usize>, StoreError>(e),
    decreases ls.len() - n,
{
    if n == ls.len() {
        assert(ls.take(n) =~= ls);
    } else {
        assert(ls.take(n + 1).drop_last() =~= ls.take(n));
        lemma_ids_error(ls, n + 1, e);
    }
}

/// The name of the table with this number.
pub fn make_table_name(id: usize) -> (r: String)
    ensures
        r@ == table_name(id as nat),
{
    let mut r: String = "sst-".to_owned();
    r.append(to_decimal(id).as_str());
    r.append(".json");
    r
}

/// The text of a manifest that lists these levels.
pub fn render_manifest(levels: &Vec<Vec<ManifestLine>>) -> (r: String)
    ensures
        r@ == manifest_text(levels_view(levels@)),
{
    let ghost view = levels_view(levels@);
    let mut r: String = String::new();
    let ghost mut done: Seq<Seq<char>> = Seq::empty();
    let mut i: usize = 0;
    assert(view.take(0) =~= Seq::empty());
    while i < levels.len()
        invariant
            i <= levels@.len(),
            view == levels_view(levels@),
            done == manifest_lines(view.take(i as int)),
            r@ == text::unlines(done),
        decreases levels.len() - i,
    {
        let level = &levels[i];
        let ghost here = level_view(level@);
        let ghost start = done;
        assert(view[i as int] == here);
        r.append("[L");
        r.append(to_decimal(i).as_str());
        r.append("]");
        r.push('\n');
        proof {
            done = start.push(header(i as nat));
            assert(done.drop_last() =~= start);
            assert(r@ =~= text::unlines(start) + header(i as nat).push('\n'));
            assert(level_lines(i as nat, here.take(0)) =~= seq![header(i as nat)]);
            assert(done =~= start + level_lines(i as nat, here.take(0)));
        }
        let mut j: usize = 0;
        while j < level.len()
            invariant
                i < levels@.len(),
                j <= level@.len(),
                here == level_view(level@),
                done == start + level_lines(i as nat, here.take(j as int)),
                r@ == text::unlines(done),
            decreases level.len() - j,
        {
            let l = &level[j];
            let ghost before = r@;
            assert(here[j as int] == l@);
            if i == 0 {
                r.append(l.sst_name.as_str());
            } else {
                r.append(l.start_key.as_str());
                r.append("-");
                r.append(l.end_key.as_str());
                r.append(":");
                r.append(l.sst_name.as_str());
            }
            r.push('\n');
            proof {
                let line = table_line(i as nat, l@);
                assert(r@ =~= before + line.push('\n'));
                assert(level_lines(i as nat, here.take(j + 1)) =~= level_lines(
                    i as nat,
                    here.take(j as int),
                ).push(line));
                let more = done.push(line);
                assert(more.drop_last() =~= done);
                assert(more =~= start + level_lines(i as nat, here.take(j + 1)));
                done = more;
            }
            j += 1;
        }
        proof {
            assert(here.take(j as int) =~= here);
            assert(view.take(i + 1).drop_last() =~= view.take(i as int));
            assert(view.take(i + 1).last() == here);
        }
        i += 1;
    }
    assert(view.take(i as int) =~= view);
    r
}

/// Whether a text can be a key in the manifest: the characters that end it there do not occur.
pub open spec fn is_plain(key: Seq<char>) -> bool {
    !key.contains('-') && !key.contains(':') && !key.contains('\n')
}

/// Whether the entry of a table can be read back from its line.
pub open spec fn is_writable_line(level: nat, l: LineView) -> bool {
    if level == 0 {
        &&& l == unkeyed(l.sst_name)
        &&& text::is_line(l.sst_name)
        &&& !text::is_blank(l.sst_name)
        &&& !pattern::is_level_header(l.sst_name)
    } else {
        &&& is_plain(l.start_key)
        &&& is_plain(l.end_key)
        &&& !l.sst_name.contains(':')
        &&& text::is_line(l.sst_name)
    }
}

/// Whether all entries can be read back.
pub open spec fn is_writable(levels: Seq<Seq<LineView>>) -> bool {
    forall|i: int, j: int|
        0 <= i < levels.len() && 0 <= j < levels[i].len() ==> is_writable_line(
            i as nat,
            #[trigger] levels[i][j],
        )
}

proof fn lemma_header(level: nat)
    ensures
        pattern::is_level_header(header(level)),
        text::is_line(header(level)),
{
    reveal_strlit("[L");
    reveal_strlit("]");
    text::lemma_decimal(level);
    let d = text::decimal(level);
    let h = header(level);
    assert(h =~= seq!['[', 'L'] + d + seq![']']);
    assert forall|i: int| 2 <= i < h.len() - 1 implies text::is_digit(#[trigger] h[i]) by {
        assert(h[i] == d[i - 2]);
        assert(text::is_digit(d[i - 2]));
    }
    assert(!h.contains('\n')) by {
        assert forall|i: int| 0 <= i < h.len() implies h[i] != '\n' by {
            if 2 <= i < h.len() - 1 {
                assert(text::is_digit(h[i]));
            }
        }
    }
}

proof fn lemma_keyed_line(level: nat, l: LineView)
    requires
        level > 0,
        is_writable_line(level, l),
    ensures
        keyed(table_line(level, l)) == Some(l),
        text::is_line(table_line(level, l)),
        !text::is_blank(table_line(level, l)),
        !pattern::is_level_header(table_line(level, l)),
        table_line(level, l).contains(':'),
{
    reveal_strlit("-");
    reveal_strlit(":");
    let line = table_line(level, l);
    let range = l.start_key.push('-') + l.end_key;
    assert(line =~= range.push(':') + l.sst_name);
    assert(!range.contains(':')) by {
        assert forall|i: int| 0 <= i < range.len() implies range[i] != ':' by {
            if i < l.start_key.len() {
                assert(l.start_key.contains(l.start_key[i]));
            } else if i > l.start_key.len() {
                assert(l.end_key.contains(l.end_key[i - l.start_key.len() - 1]));
            }
        }
    }
    text::lemma_split_concat(range, ':', l.sst_name);
    text::lemma_split_one(range, ':');
    text::lemma_split_one(l.sst_name, ':');
    assert(text::split(line, ':') =~= seq![range, l.sst_name]);
    text::lemma_split_concat(l.start_key, '-', l.end_key);
    text::lemma_split_one(l.start_key, '-');
    text::lemma_split_one(l.end_key, '-');
    assert(text::split(range, '-') =~= seq![l.start_key, l.end_key]);
    let n = l.start_key.len() as int;
    assert(line[n] == '-');
    assert(line[range.len() as int] == ':');
    assert(!text::is_white_space(line[n]));
    if pattern::is_level_header(line) {
        if 2 <= n < line.len() - 1 {
            assert(pattern::is_any_digit(line[n]));
        }
    }
    assert(!line.contains('\n')) by {
        assert forall|i: int| 0 <= i < line.len() implies line[i] != '\n' by {
            if i < n {
                assert(l.start_key.contains(l.start_key[i]));
            } else if n < i < range.len() {
                assert(l.end_key.contains(l.end_key[i - n - 1]));
            } else if i > range.len() {
                assert(l.sst_name.contains(l.sst_name[i - range.len() - 1]));
            }
        }
    }
    if l.sst_name.len() > 0 {
        assert(line.last() == l.sst_name.last());
    }
}

/// The lines of a level, up to a table, read back.
proof fn lemma_parse_level(levels: Seq<Seq<LineView>>, ls: Seq<LineView>, n: int)
    requires
        0 <= n <= ls.len(),
        parse_lines(manifest_lines(levels)) == Ok::<Seq<Seq<LineView>>, StoreError>(levels),
        forall|j: int|
            0 <= j < ls.len() ==> is_writable_line(levels.len(), #[trigger] ls[j]),
    ensures
        parse_lines(manifest_lines(levels) + level_lines(levels.len(), ls.take(n))) == Ok::<
            Seq<Seq<LineView>>,
            StoreError,
        >(levels.push(ls.take(n))),
        forall|j: int|
            0 <= j < level_lines(levels.len(), ls.take(n)).len() ==> text::is_line(
                #[trigger] level_lines(levels.len(), ls.take(n))[j],
            ),
    decreases n,
{
    let before = manifest_lines(levels);
    let level = levels.len();
    let here = level_lines(level, ls.take(n));
    let whole = before + here;
    lemma_header(level);
    if n == 0 {
        assert(here =~= seq![header(level)]);
        assert(whole.drop_last() =~= before);
        assert(ls.take(0) =~= Seq::empty());
    } else {
        lemma_parse_level(levels, ls, n - 1);
        let l = ls[n - 1];
        let line = table_line(level, l);
        let less = level_lines(level, ls.take(n - 1));
        assert(here =~= less.push(line));
        assert(whole.drop_last() =~= before + less);
        assert(whole.last() == line);
        assert(is_writable_line(level, l));
        let so_far = levels.push(ls.take(n - 1));
        assert(add_table(so_far, l) =~= levels.push(ls.take(n))) by {
            assert(ls.take(n - 1).push(l) =~= ls.take(n));
        }
        if level > 0 {
            lemma_keyed_line(level, l);
        }
        assert forall|j: int| 0 <= j < here.len() implies text::is_line(#[trigger] here[j]) by {
            if j < less.len() {
                assert(here[j] == less[j]);
            }
        }
    }
}

proof fn lemma_parse_levels(levels: Seq<Seq<LineView>>)
    requires
        is_writable(levels),
    ensures
        parse_lines(manifest_lines(levels)) == Ok::<Seq<Seq<LineView>>, StoreError>(levels),
        forall|j: int|
            0 <= j < manifest_lines(levels).len() ==> text::is_line(
                #[trigger] manifest_lines(levels)[j],
            ),
    decreases levels.len(),
{
    if levels.len() == 0 {
        assert(levels =~= Seq::empty());
    } else {
        let front = levels.drop_last();
        let last = levels.last();
        assert forall|i: int, j: int|
            0 <= i < front.len() && 0 <= j < front[i].len() implies is_writable_line(
            i as nat,
            #[trigger] front[i][j],
        ) by {
            assert(front[i][j] == levels[i][j]);
        }
        lemma_parse_levels(front);
        assert forall|j: int| 0 <= j < last.len() implies is_writable_line(
            front.len(),
            #[trigger] last[j],
        ) by {
            assert(last[j] == levels[front.len() as int][j]);
        }
        lemma_parse_level(front, last, last.len() as int);
        assert(last.take(last.len() as int) =~= last);
        assert(front.push(last) =~= levels);
        let a = manifest_lines(front);
        let b = level_lines(front.len(), last);
        assert forall|j: int| 0 <= j < manifest_lines(levels).len() implies text::is_line(
            #[trigger] manifest_lines(levels)[j],
        ) by {
            if j < a.len() {
                assert(manifest_lines(levels)[j] == a[j]);
            } else {
                assert(manifest_lines(levels)[j] == b[j - a.len()]);
            }
        }
    }
}

/// A manifest gives back the levels that it was written for, where every entry can be read back.
pub proof fn law_manifest_round_trip(levels: Seq<Seq<LineView>>)
    requires
        is_writable(levels),
    ensures
        manifest_levels(manifest_text(levels)) == Ok::<Seq<Seq<LineView>>, StoreError>(levels),
{
    lemma_parse_levels(levels);
    text::lemma_lines_unlines(manifest_lines(levels));
}

/// Whether an entry is one that a line of a manifest can list.
spec fn is_listed_line(level: nat, l: LineView) -> bool {
    if level == 0 {
        &&& l == unkeyed(l.sst_name)
        &&& !l.sst_name.contains('\n')
        &&& !text::is_blank(l.sst_name)
        &&& !pattern::is_level_header(l.sst_name)
    } else {
        &&& is_plain(l.start_key)
        &&& is_plain(l.end_key)
        &&& !l.sst_name.contains(':')
        &&& !l.sst_name.contains('\n')
    }
}

proof fn lemma_keyed_parts(line: Seq<char>)
    requires
        !line.contains('\n'),
    ensures
        keyed(line) matches Some(l) ==> forall|level: nat|
            level > 0 ==> #[trigger] is_listed_line(level, l),
{
    let parts = text::split(line, ':');
    let keys = text::split(parts[0], '-');
    text::lemma_split_some(line, ':');
    assert forall|i: int, c: char| 0 <= i < parts.len() && (c == ':' || c == '\n') implies !(
    #[trigger] parts[i].contains(c)) by {
        if parts[i].contains(c) {
            text::lemma_split_pieces(line, ':', i, c);
        }
    }
    assert forall|i: int, c: char|
        0 <= i < keys.len() && (c == '-' || c == ':' || c == '\n') implies !(
    #[trigger] keys[i].contains(c)) by {
        if keys[i].contains(c) {
            text::lemma_split_pieces(parts[0], '-', i, c);
        }
    }
}

proof fn lemma_parsed(ls: Seq<Seq<char>>)
    requires
        forall|i: int| 0 <= i < ls.len() ==> !(#[trigger] ls[i]).contains('\n'),
    ensures
        parse_lines(ls) matches Ok(levels) ==> forall|i: int, j: int|
            0 <= i < levels.len() && 0 <= j < levels[i].len() ==> is_listed_line(
                i as nat,
                #[trigger] levels[i][j],
            ),
    decreases ls.len(),
{
    if ls.len() > 0 && parse_lines(ls) is Ok {
        let front = ls.drop_last();
        assert forall|i: int| 0 <= i < front.len() implies !(#[trigger] front[i]).contains('\n') by {
            assert(front[i] == ls[i]);
        }
        lemma_parsed(front);
        let line = ls[ls.len() - 1];
        let before = parse_lines(front)->Ok_0;
        let levels = parse_lines(ls)->Ok_0;
        lemma_keyed_parts(line);
        assert forall|i: int, j: int|
            0 <= i < levels.len() && 0 <= j < levels[i].len() implies is_listed_line(
            i as nat,
            #[trigger] levels[i][j],
        ) by {
            if i < before.len() && j < before[i].len() {
                assert(levels[i][j] == before[i][j]);
            }
        }
    }
}

/// What a manifest lists, whatever its form, can be written and read back, but for names that end
/// with a carriage return.
pub proof fn law_listed_is_writable(content: Seq<char>)
    requires
        manifest_levels(content) is Ok,
        forall|i: int, j: int|
            0 <= i < manifest_levels(content)->Ok_0.len() && 0 <= j < manifest_levels(
                content,
            )->Ok_0[i].len() ==> {
                let name = (#[trigger] manifest_levels(content)->Ok_0[i][j]).sst_name;
                name.len() > 0 ==> name.last() != '\r'
            },
    ensures
        is_writable(manifest_levels(content)->Ok_0),
{
    let ls = text::lines(content);
    let levels = manifest_levels(content)->Ok_0;
    assert forall|i: int| 0 <= i < ls.len() implies !(#[trigger] ls[i]).contains('\n') by {
        text::lemma_lines_no_feed(content, i);
    }
    lemma_parsed(ls);
    assert forall|i: int, j: int|
        0 <= i < levels.len() && 0 <= j < levels[i].len() implies is_writable_line(
        i as nat,
        #[trigger] levels[i][j],
    ) by {
        assert(is_listed_line(i as nat, levels[i][j]));
    }
}

/// The names that the store gives its tables can be listed on any level, and are told from the
/// start of a level.
pub proof fn lemma_table_name(id: nat)
    ensures
        is_writable_line(0, unkeyed(table_name(id))),
        !table_name(id).contains(':'),
        text::is_line(table_name(id)),
        pattern::is_table_name(table_name(id)),
        pattern::table_number(table_name(id)) == text::decimal(id),
{
    reveal_strlit("sst-");
    reveal_strlit(".json");
    text::lemma_decimal(id);
    let d = text::decimal(id);
    let name = table_name(id);
    assert(name =~= seq!['s', 's', 't', '-'] + d + seq!['.', 'j', 's', 'o', 'n']);
    assert forall|i: int| 4 <= i < name.len() - 5 implies text::is_digit(#[trigger] name[i]) by {
        assert(name[i] == d[i - 4]);
        assert(text::is_digit(d[i - 4]));
    }
    assert forall|i: int| 0 <= i < name.len() implies name[i] != ':' && name[i] != '\n' by {
        if 4 <= i < name.len() - 5 {
            assert(text::is_digit(name[i]));
        }
    }
    text::lemma_position_is(name, '-', 3);
    assert(name.skip(name.len() - 5) =~= seq!['.', 'j', 's', 'o', 'n']);
    assert(name.subrange(4, name.len() - 5) =~= d);
    assert(!text::is_white_space(name[0]));
    assert(name[0] == 's');
}

/// Different numbers make different names.
pub proof fn lemma_table_name_injective(m: nat, n: nat)
    requires
        table_name(m) == table_name(n),
    ensures
        m == n,
{
    lemma_table_name(m);
    lemma_table_name(n);
    text::lemma_decimal_injective(m, n);
}

/// A line with a colon is not the name of a table.
pub proof fn lemma_colon(s: Seq<char>)
    requires
        s.contains(':'),
    ensures
        !pattern::is_table_name(s),
{
    let i = choose|i: int| 0 <= i < s.len() && s[i] == ':';
    let n = text::position(s, '-');
    text::lemma_position(s, '-');
    if pattern::is_table_name(s) {
        if i < n {
            assert(pattern::is_alphanumeric(s[i]));
        } else if n < i < s.len() - 5 {
            assert(pattern::is_any_digit(s[i]));
        } else if i >= s.len() - 5 {
            assert(s.skip(s.len() - 5)[i - (s.len() - 5)] == ':');
        }
    }
}

/// The number in the name of a table.
pub open spec fn number_in(name: Seq<char>) -> nat {
    text::number(pattern::table_number(name))
}

pub proof fn lemma_number_in(id: nat)
    ensures
        number_in(table_name(id)) == id,
{
    lemma_table_name(id);
    text::lemma_decimal(id);
}

/// Whether the tables of level 0 bear names that the store gave them.
pub open spec fn is_named(ls: Seq<LineView>) -> bool {
    forall|j: int|
        0 <= j < ls.len() ==> {
            let name = (#[trigger] ls[j]).sst_name;
            name == table_name(number_in(name)) && number_in(name) < usize::MAX
        }
}

/// The number after that of the last table, or 0.
pub open spec fn number_after(ls: Seq<LineView>, id: int) -> bool {
    if ls.len() == 0 {
        id == 0
    } else {
        id > 0 && ls.last().sst_name == table_name((id - 1) as nat)
    }
}

proof fn lemma_ids_level(levels: Seq<Seq<LineView>>, ids: Seq<usize>, ls: Seq<LineView>, n: int)
    requires
        0 <= n <= ls.len(),
        ids_lines(manifest_lines(levels)) == Ok::<Seq<usize>, StoreError>(ids),
        ids.len() == levels.len(),
        forall|j: int|
            0 <= j < ls.len() ==> is_writable_line(levels.len(), #[trigger] ls[j]),
        levels.len() == 0 ==> is_named(ls),
    ensures
        ids_lines(manifest_lines(levels) + level_lines(levels.len(), ls.take(n))) is Ok,
        ({
            let after = ids_lines(
                manifest_lines(levels) + level_lines(levels.len(), ls.take(n)),
            )->Ok_0;
            &&& after.len() == ids.len() + 1
            &&& after.drop_last() == ids
            &&& if levels.len() == 0 {
                number_after(ls.take(n), after.last() as int)
            } else {
                after.last() == 0
            }
        }),
    decreases n,
{
    let before = manifest_lines(levels);
    let level = levels.len();
    let here = level_lines(level, ls.take(n));
    let whole = before + here;
    lemma_header(level);
    if n == 0 {
        assert(here =~= seq![header(level)]);
        assert(whole.drop_last() =~= before);
        assert(ids.push(0).drop_last() =~= ids);
    } else {
        lemma_ids_level(levels, ids, ls, n - 1);
        let l = ls[n - 1];
        let line = table_line(level, l);
        let less = level_lines(level, ls.take(n - 1));
        assert(here =~= less.push(line));
        assert(whole.drop_last() =~= before + less);
        assert(whole.last() == line);
        assert(is_writable_line(level, l));
        let so_far = ids_lines(before + less)->Ok_0;
        if level > 0 {
            lemma_keyed_line(level, l);
            lemma_colon(line);
        } else {
            let id = number_in(l.sst_name);
            lemma_table_name(id);
            text::lemma_decimal(id);
            assert(ls.take(n).last() == l);
            let after = so_far.update(so_far.len() - 1, (id + 1) as usize);
            assert(after.drop_last() =~= so_far.drop_last());
        }
    }
}

proof fn lemma_ids_levels(levels: Seq<Seq<LineView>>)
    requires
        is_writable(levels),
        levels.len() > 0 ==> is_named(levels[0]),
    ensures
        ids_lines(manifest_lines(levels)) is Ok,
        ({
            let ids = ids_lines(manifest_lines(levels))->Ok_0;
            &&& ids.len() == levels.len()
            &&& levels.len() > 0 ==> number_after(levels[0], ids[0] as int)
            &&& forall|i: int| 0 < i < ids.len() ==> #[trigger] ids[i] == 0
        }),
    decreases levels.len(),
{
    if levels.len() > 0 {
        let front = levels.drop_last();
        let last = levels.last();
        assert forall|i: int, j: int|
            0 <= i < front.len() && 0 <= j < front[i].len() implies is_writable_line(
            i as nat,
            #[trigger] front[i][j],
        ) by {
            assert(front[i][j] == levels[i][j]);
        }
        lemma_ids_levels(front);
        assert forall|j: int| 0 <= j < last.len() implies is_writable_line(
            front.len(),
            #[trigger] last[j],
        ) by {
            assert(last[j] == levels[front.len() as int][j]);
        }
        let ids = ids_lines(manifest_lines(front))->Ok_0;
        lemma_ids_level(front, ids, last, last.len() as int);
        assert(last.take(last.len() as int) =~= last);
        let after = ids_lines(manifest_lines(levels))->Ok_0;
        assert(after == ids.push(after.last()));
        assert(levels[0] == if front.len() == 0 {
            last
        } else {
            front[0]
        });
    }
}

/// When the store is opened again, level 0 goes on with the number after that of its last table.
/// On the other levels, whose tables are listed with their keys, numbers start at 0 again.
pub proof fn law_ids_after_restart(levels: Seq<Seq<LineView>>)
    requires
        is_writable(levels),
        levels.len() > 0,
        is_named(levels[0]),
    ensures
        manifest_ids(manifest_text(levels)) is Ok,
        manifest_ids(manifest_text(levels))->Ok_0.len() == levels.len(),
        number_after(levels[0], manifest_ids(manifest_text(levels))->Ok_0[0] as int),
        forall|i: int|
            0 < i < levels.len() ==> #[trigger] manifest_ids(manifest_text(levels))->Ok_0[i] == 0,
{
    lemma_parse_levels(levels);
    text::lemma_lines_unlines(manifest_lines(levels));
    lemma_ids_levels(levels);
}

} // verus!
