//! Setting a runtime directory (`config.pkgs_dir`, `config.backup_dir`) in
//! the text of a configuration file, keeping its layout and comments.
use crate::text::{
    chars_of, chars_range, ends_with, ends_with_chars, find, find_chars, find_from, is_space,
    is_space_char, leading_space, lemma_find_from_bounds, lemma_trim_start_skip, occurs_at,
    starts_with, starts_with_chars, string_of, trim, trim_end, trim_range, trim_start,
    without_trailing_space,
};
use vstd::prelude::*;

verus! {

pub open spec fn is_newline_char(c: char) -> bool {
    c == '\r' || c == '\n'
}

/// `s` without the `\r` and `\n` characters that end it.
pub open spec fn trim_newlines(s: Seq<char>) -> Seq<char>
    decreases s.len(),
{
    if s.len() > 0 && is_newline_char(s.last()) {
        trim_newlines(s.drop_last())
    } else {
        s
    }
}

/// After white space, `rest` begins with `:`.
pub open spec fn colon_follows(rest: Seq<char>) -> bool {
    let t = trim_start(rest);
    t.len() > 0 && t[0] == ':'
}

/// `s` begins with `key`, then white space, then `:`.
pub open spec fn key_then_colon(s: Seq<char>, key: Seq<char>) -> bool {
    starts_with(s, key) && colon_follows(s.skip(key.len() as int))
}

/// A line that opens the top-level mapping entry `key`.
pub open spec fn is_top_level_key_spec(line: Seq<char>, key: Seq<char>) -> bool {
    key_then_colon(trim_newlines(line), key)
}

/// A line that is not blank and does not begin with white space: it ends
/// the current top-level section.
pub open spec fn is_section_boundary_spec(line: Seq<char>) -> bool {
    trim(line).len() > 0 && !is_space(line[0])
}

/// A line, indented or not, for the entry `key`.
pub open spec fn is_config_key_spec(line: Seq<char>, key: Seq<char>) -> bool {
    key_then_colon(trim_start(line), key)
}

/// The line end that `line` carries: `\r\n`, `\n` or none.
pub open spec fn line_ending(line: Seq<char>) -> Seq<char> {
    if ends_with(line, seq!['\r', '\n']) {
        seq!['\r', '\n']
    } else if ends_with(line, seq!['\n']) {
        seq!['\n']
    } else {
        Seq::empty()
    }
}

/// `line` with the value after its first `:` replaced by `value`; a comment
/// (from the first ` #`) and the line end are kept.
pub open spec fn replace_value_spec(line: Seq<char>, value: Seq<char>) -> Seq<char> {
    let body = trim_newlines(line);
    let colon = find(body, seq![':'])->Some_0;
    let comment = match find(body, seq![' ', '#']) {
        Some(i) => body.skip(i),
        None => Seq::empty(),
    };
    body.take(colon + 1) + seq![' '] + value + comment + line_ending(line)
}

/// The end of the line that starts at `i`: just after its `\n`, or the end of
/// `s`.
pub open spec fn line_end(s: Seq<char>, i: int) -> int
    decreases s.len() - i,
{
    if i >= s.len() {
        s.len() as int
    } else if s[i] == '\n' {
        i + 1
    } else {
        line_end(s, i + 1)
    }
}

/// The lines of `s` from position `i`, each with its `\n`
/// (`str::split_inclusive('\n')`).
pub open spec fn lines_from(s: Seq<char>, i: int) -> Seq<Seq<char>>
    decreases s.len() - i,
{
    if i < 0 || i >= s.len() {
        Seq::empty()
    } else {
        let e = line_end(s, i);
        if e <= i || e > s.len() {
            Seq::empty()
        } else {
            seq![s.subrange(i, e)] + lines_from(s, e)
        }
    }
}

pub open spec fn split_lines(s: Seq<char>) -> Seq<Seq<char>> {
    lines_from(s, 0)
}

/// The lines put back together.
pub open spec fn concat_lines(lines: Seq<Seq<char>>) -> Seq<char>
    decreases lines.len(),
{
    if lines.len() == 0 {
        Seq::empty()
    } else {
        concat_lines(lines.drop_last()) + lines.last()
    }
}

/// The first line at or after `i` that opens the top-level entry `key`.
pub open spec fn first_top_level_key(lines: Seq<Seq<char>>, key: Seq<char>, i: int) -> Option<int>
    decreases lines.len() - i,
{
    if i >= lines.len() {
        None
    } else if is_top_level_key_spec(lines[i], key) {
        Some(i)
    } else {
        first_top_level_key(lines, key, i + 1)
    }
}

/// The first section boundary at or after `i`, or the number of lines.
pub open spec fn section_end(lines: Seq<Seq<char>>, i: int) -> int
    decreases lines.len() - i,
{
    if i >= lines.len() {
        lines.len() as int
    } else if is_section_boundary_spec(lines[i]) {
        i
    } else {
        section_end(lines, i + 1)
    }
}

/// The first line in `i..end` for the entry `key`.
pub open spec fn first_config_key(lines: Seq<Seq<char>>, key: Seq<char>, i: int, end: int) -> Option<
    int,
>
    decreases end - i,
{
    if i >= end {
        None
    } else if is_config_key_spec(lines[i], key) {
        Some(i)
    } else {
        first_config_key(lines, key, i + 1, end)
    }
}

/// The last line in `from..end` that is not blank.
pub open spec fn last_nonblank(lines: Seq<Seq<char>>, from: int, end: int) -> Option<int>
    decreases end - from,
{
    if end <= from {
        None
    } else if trim(lines[end - 1]).len() > 0 {
        Some(end - 1)
    } else {
        last_nonblank(lines, from, end - 1)
    }
}

pub open spec fn config_word() -> Seq<char> {
    seq!['c', 'o', 'n', 'f', 'i', 'g']
}

/// `  key: value` and a line end.
pub open spec fn entry_line(key: Seq<char>, value: Seq<char>) -> Seq<char> {
    seq![' ', ' '] + key + seq![':', ' '] + value + seq!['\n']
}

/// A `config` section holding only `key: value`.
pub open spec fn config_block(key: Seq<char>, value: Seq<char>) -> Seq<char> {
    config_word() + seq![':', '\n'] + entry_line(key, value)
}

/// The configuration text `original` with `config.key` set to `value`: an
/// existing entry in the `config` section has its value replaced; otherwise
/// the entry is added after the last non-blank line of the section; a file
/// without a `config` section gets one at its end; an empty file becomes
/// that section alone.
pub open spec fn update_yaml_spec(original: Seq<char>, key: Seq<char>, value: Seq<char>) -> Seq<
    char,
> {
    if original.len() == 0 {
        config_block(key, value)
    } else {
        let lines = split_lines(original);
        match first_top_level_key(lines, config_word(), 0) {
            Some(ci) => {
                let end = section_end(lines, ci + 1);
                match first_config_key(lines, key, ci + 1, end) {
                    Some(k) => concat_lines(lines.update(k, replace_value_spec(lines[k], value))),
                    None => {
                        let at = match last_nonblank(lines, ci + 1, end) {
                            Some(j) => j + 1,
                            None => ci + 1,
                        };
                        concat_lines(lines.insert(at, entry_line(key, value)))
                    },
                }
            },
            None => original + (if ends_with(original, seq!['\n']) {
                Seq::empty()
            } else {
                seq!['\n']
            }) + config_block(key, value),
        }
    }
}

pub open spec fn lines_view(v: Seq<Vec<char>>) -> Seq<Seq<char>> {
    v.map_values(|l: Vec<char>| l@)
}

proof fn lemma_trim_newlines(s: Seq<char>)
    ensures
        trim_newlines(s).len() <= s.len(),
        trim_newlines(s) == s.take(trim_newlines(s).len() as int),
        forall|i: int| trim_newlines(s).len() <= i < s.len() ==> is_newline_char(s[i]),
    decreases s.len(),
{
    if s.len() > 0 && is_newline_char(s.last()) {
        lemma_trim_newlines(s.drop_last());
        assert(s.drop_last().take(trim_newlines(s).len() as int) =~= s.take(
            trim_newlines(s).len() as int,
        ));
        assert forall|i: int| trim_newlines(s).len() <= i < s.len() implies is_newline_char(s[i]) by {
            if i < s.len() - 1 {
                assert(s.drop_last()[i] == s[i]);
            }
        }
    } else {
        assert(s.take(s.len() as int) =~= s);
    }
}

/// A line for an entry holds a `:` before its line end.
proof fn lemma_config_key_has_colon(line: Seq<char>, key: Seq<char>)
    requires
        is_config_key_spec(line, key),
    ensures
        find(trim_newlines(line), seq![':']) is Some,
{
    lemma_trim_start_skip(line);
    let k1 = choose|k: int| 0 <= k <= line.len() && trim_start(line) == line.skip(k);
    let rest = line.skip(k1 + key.len());
    assert(trim_start(line).skip(key.len() as int) =~= rest);
    lemma_trim_start_skip(rest);
    let k2 = choose|k: int| 0 <= k <= rest.len() && trim_start(rest) == rest.skip(k);
    let j = k1 + key.len() + k2;
    assert(line[j] == ':');
    lemma_trim_newlines(line);
    let body = trim_newlines(line);
    assert(j < body.len());
    assert(body[j] == ':');
    assert(body.subrange(j, j + 1) =~= seq![':']);
    assert(occurs_at(body, j, seq![':']));
    lemma_find_from_bounds(body, seq![':'], 0);
}

/// The length of `s` without its trailing `\r` and `\n` characters.
fn trimmed_newlines_len(s: &[char]) -> (res: usize)
    ensures
        res <= s@.len(),
        trim_newlines(s@) == s@.take(res as int),
{
    let mut n = s.len();
    assert(s@.take(n as int) =~= s@);
    while n > 0 && (s[n - 1] == '\r' || s[n - 1] == '\n')
        invariant
            n <= s@.len(),
            trim_newlines(s@) == trim_newlines(s@.take(n as int)),
        decreases n,
    {
        assert(s@.take(n as int).drop_last() =~= s@.take(n - 1));
        n -= 1;
    }
    n
}

fn key_then_colon_exec(s: &[char], key: &[char]) -> (res: bool)
    ensures
        res == key_then_colon(s@, key@),
{
    if !starts_with_chars(s, key) {
        return false;
    }
    let rest = chars_range(s, key.len(), s.len());
    assert(rest@ =~= s@.skip(key@.len() as int));
    let k = leading_space(rest.as_slice());
    k < rest.len() && rest[k] == ':'
}

/// Whether `line` opens the top-level entry `key`.
pub fn is_top_level_key(line: &[char], key: &[char]) -> (res: bool)
    ensures
        res == is_top_level_key_spec(line@, key@),
{
    let n = trimmed_newlines_len(line);
    let body = chars_range(line, 0, n);
    assert(body@ =~= line@.take(n as int));
    key_then_colon_exec(body.as_slice(), key)
}

/// Whether `line` ends the current top-level section.
pub fn is_top_level_section_boundary(line: &[char]) -> (res: bool)
    ensures
        res == is_section_boundary_spec(line@),
{
    let (start, end) = trim_range(line);
    end > start && !is_space_char(line[0])
}

/// Whether `line` is the entry `key`.
pub fn is_config_key(line: &[char], key: &[char]) -> (res: bool)
    ensures
        res == is_config_key_spec(line@, key@),
{
    let k = leading_space(line);
    let t = chars_range(line, k, line.len());
    assert(t@ =~= line@.skip(k as int));
    key_then_colon_exec(t.as_slice(), key)
}

/// `line` with its value replaced by `value`.
pub fn replace_yaml_value(line: &[char], value: &[char]) -> (res: Vec<char>)
    requires
        find(trim_newlines(line@), seq![':']) is Some,
    ensures
        res@ == replace_value_spec(line@, value@),
{
    let crlf = vec!['\r', '\n'];
    let lf = vec!['\n'];
    assert(crlf@ =~= seq!['\r', '\n']);
    assert(lf@ =~= seq!['\n']);
    let newline: Vec<char> = if ends_with_chars(line, crlf.as_slice()) {
        crlf
    } else if ends_with_chars(line, lf.as_slice()) {
        lf
    } else {
        Vec::new()
    };
    let n = trimmed_newlines_len(line);
    let body = chars_range(line, 0, n);
    assert(body@ =~= trim_newlines(line@));
    let colon_pattern = vec![':'];
    assert(colon_pattern@ =~= seq![':']);
    let colon = match find_chars(body.as_slice(), colon_pattern.as_slice(), 0) {
        Some(c) => c,
        None => {
            proof {
                assert(false);
            }
            return Vec::new();
        },
    };
    proof {
        lemma_find_from_bounds(body@, seq![':'], 0);
    }
    let comment_pattern = vec![' ', '#'];
    assert(comment_pattern@ =~= seq![' ', '#']);
    let comment: Vec<char> = match find_chars(body.as_slice(), comment_pattern.as_slice(), 0) {
        Some(i) => {
            proof {
                lemma_find_from_bounds(body@, seq![' ', '#'], 0);
            }
            chars_range(body.as_slice(), i, body.len())
        },
        None => Vec::new(),
    };
    let mut res = chars_range(body.as_slice(), 0, colon + 1);
    res.push(' ');
    let mut i: usize = 0;
    let ghost head = res@;
    while i < value.len()
        invariant
            i <= value@.len(),
            res@ == head + value@.take(i as int),
        decreases value@.len() - i,
    {
        res.push(value[i]);
        assert(value@.take(i + 1) =~= value@.take(i as int).push(value@[i as int]));
        i += 1;
    }
    assert(value@.take(value@.len() as int) =~= value@);
    let mut tail = comment;
    let mut j: usize = 0;
    let ghost before = res@;
    let ghost rest = tail@ + newline@;
    while j < newline.len()
        invariant
            j <= newline@.len(),
            tail@ == comment@ + newline@.take(j as int),
        decreases newline@.len() - j,
    {
        tail.push(newline[j]);
        assert(newline@.take(j + 1) =~= newline@.take(j as int).push(newline@[j as int]));
        j += 1;
    }
    assert(newline@.take(newline@.len() as int) =~= newline@);
    res.append(&mut tail);
    proof {
        let expected_comment = match find(body@, seq![' ', '#']) {
            Some(i) => body@.skip(i),
            None => Seq::<char>::empty(),
        };
        assert(comment@ == expected_comment);
        assert(res@ =~= replace_value_spec(line@, value@));
    }
    res
}

/// The lines of `s`, each with its `\n`.
pub fn split_lines_exec(s: &[char]) -> (res: Vec<Vec<char>>)
    ensures
        lines_view(res@) == split_lines(s@),
{
    let mut res: Vec<Vec<char>> = Vec::new();
    let mut i: usize = 0;
    while i < s.len()
        invariant
            i <= s@.len(),
            lines_view(res@) + lines_from(s@, i as int) == split_lines(s@),
        decreases s@.len() - i,
    {
        let mut j = i;
        while j < s.len() && s[j] != '\n'
            invariant
                i <= j <= s@.len(),
                line_end(s@, i as int) == line_end(s@, j as int),
            decreases s@.len() - j,
        {
            j += 1;
        }
        let e = if j < s.len() {
            j + 1
        } else {
            j
        };
        assert(e == line_end(s@, i as int));
        let line = chars_range(s, i, e);
        proof {
            assert(lines_from(s@, i as int) == seq![s@.subrange(i as int, e as int)] + lines_from(
                s@,
                e as int,
            ));
            assert(lines_view(res@.push(line)) =~= lines_view(res@).push(line@));
            assert(lines_view(res@).push(line@) + lines_from(s@, e as int) =~= lines_view(res@)
                + lines_from(s@, i as int));
        }
        res.push(line);
        i = e;
    }
    assert(lines_from(s@, i as int) =~= Seq::<Seq<char>>::empty());
    assert(lines_view(res@) =~= split_lines(s@));
    res
}

/// The lines put back together.
pub fn concat_lines_exec(lines: &Vec<Vec<char>>) -> (res: Vec<char>)
    ensures
        res@ == concat_lines(lines_view(lines@)),
{
    let mut res: Vec<char> = Vec::new();
    let mut i: usize = 0;
    while i < lines.len()
        invariant
            i <= lines@.len(),
            res@ == concat_lines(lines_view(lines@).take(i as int)),
        decreases lines@.len() - i,
    {
        let line = &lines[i];
        let ghost start = res@;
        let mut j: usize = 0;
        while j < line.len()
            invariant
                j <= line@.len(),
                res@ == start + line@.take(j as int),
            decreases line@.len() - j,
        {
            res.push(line[j]);
            assert(line@.take(j + 1) =~= line@.take(j as int).push(line@[j as int]));
            j += 1;
        }
        proof {
            assert(line@.take(line@.len() as int) =~= line@);
            let t = lines_view(lines@).take(i + 1);
            assert(t.drop_last() =~= lines_view(lines@).take(i as int));
            assert(t.last() == line@);
        }
        i += 1;
    }
    assert(lines_view(lines@).take(i as int) =~= lines_view(lines@));
    res
}

/// The first line at or after `from` that opens the top-level entry `key`.
fn find_top_level_key(lines: &Vec<Vec<char>>, key: &[char], from: usize) -> (res: Option<usize>)
    ensures
        match res {
            Some(i) => first_top_level_key(lines_view(lines@), key@, from as int) == Some(i as int)
                && i < lines@.len(),
            None => first_top_level_key(lines_view(lines@), key@, from as int) is None,
        },
{
    let mut i = from;
    while i < lines.len()
        invariant
            from <= i,
            first_top_level_key(lines_view(lines@), key@, from as int) == first_top_level_key(
                lines_view(lines@),
                key@,
                i as int,
            ),
        decreases lines@.len() - i,
    {
        if is_top_level_key(lines[i].as_slice(), key) {
            return Some(i);
        }
        i += 1;
    }
    None
}

fn find_section_end(lines: &Vec<Vec<char>>, from: usize) -> (res: usize)
    ensures
        res == section_end(lines_view(lines@), from as int),
        from <= res || res == lines@.len(),
        res <= lines@.len(),
{
    let mut i = from;
    while i < lines.len()
        invariant
            from <= i,
            section_end(lines_view(lines@), from as int) == section_end(lines_view(lines@), i as int),
        decreases lines@.len() - i,
    {
        if is_top_level_section_boundary(lines[i].as_slice()) {
            return i;
        }
        i += 1;
    }
    lines.len()
}

fn find_config_key(lines: &Vec<Vec<char>>, key: &[char], from: usize, end: usize) -> (res: Option<
    usize,
>)
    requires
        end <= lines@.len(),
    ensures
        match res {
            Some(i) => first_config_key(lines_view(lines@), key@, from as int, end as int) == Some(
                i as int,
            ) && from <= i < end && is_config_key_spec(lines@[i as int]@, key@),
            None => first_config_key(lines_view(lines@), key@, from as int, end as int) is None,
        },
{
    let mut i = from;
    while i < end
        invariant
            from <= i,
            end <= lines@.len(),
            first_config_key(lines_view(lines@), key@, from as int, end as int) == first_config_key(
                lines_view(lines@),
                key@,
                i as int,
                end as int,
            ),
        decreases end - i,
    {
        if is_config_key(lines[i].as_slice(), key) {
            return Some(i);
        }
        i += 1;
    }
    None
}

fn find_last_nonblank(lines: &Vec<Vec<char>>, from: usize, end: usize) -> (res: Option<usize>)
    requires
        end <= lines@.len(),
    ensures
        match res {
            Some(i) => last_nonblank(lines_view(lines@), from as int, end as int) == Some(i as int)
                && i < end,
            None => last_nonblank(lines_view(lines@), from as int, end as int) is None,
        },
{
    let mut e = end;
    while e > from
        invariant
            e <= end <= lines@.len(),
            last_nonblank(lines_view(lines@), from as int, end as int) == last_nonblank(
                lines_view(lines@),
                from as int,
                e as int,
            ),
        decreases e,
    {
        let (a, b) = trim_range(lines[e - 1].as_slice());
        if b > a {
            return Some(e - 1);
        }
        e -= 1;
    }
    None
}

fn push_all(res: &mut Vec<char>, t: &[char])
    ensures
        final(res)@ == old(res)@ + t@,
{
    let ghost start = res@;
    let mut i: usize = 0;
    while i < t.len()
        invariant
            i <= t@.len(),
            res@ == start + t@.take(i as int),
        decreases t@.len() - i,
    {
        res.push(t[i]);
        assert(t@.take(i + 1) =~= t@.take(i as int).push(t@[i as int]));
        i += 1;
    }
    assert(t@.take(t@.len() as int) =~= t@);
}

fn entry_line_exec(key: &[char], value: &[char]) -> (res: Vec<char>)
    ensures
        res@ == entry_line(key@, value@),
{
    let mut res = vec![' ', ' '];
    push_all(&mut res, key);
    res.push(':');
    res.push(' ');
    push_all(&mut res, value);
    res.push('\n');
    assert(res@ =~= entry_line(key@, value@));
    res
}

fn config_block_exec(key: &[char], value: &[char]) -> (res: Vec<char>)
    ensures
        res@ == config_block(key@, value@),
{
    let mut res = vec!['c', 'o', 'n', 'f', 'i', 'g', ':', '\n'];
    let entry = entry_line_exec(key, value);
    push_all(&mut res, entry.as_slice());
    assert(res@ =~= config_block(key@, value@));
    res
}

/// The configuration text `original` with `config.key` set to `value`, the
/// value already written as a YAML scalar.
pub fn update_runtime_path_yaml_with(original: &str, key: &str, value: &str) -> (res: String)
    ensures
        res@ == update_yaml_spec(original@, key@, value@),
{
    let text = chars_of(original);
    let key_chars = chars_of(key);
    let value_chars = chars_of(value);
    if text.len() == 0 {
        let block = config_block_exec(key_chars.as_slice(), value_chars.as_slice());
        return string_of(block.as_slice());
    }
    let mut lines = split_lines_exec(text.as_slice());
    let config_key = vec!['c', 'o', 'n', 'f', 'i', 'g'];
    assert(config_key@ =~= config_word());
    let count = lines.len();
    match find_top_level_key(&lines, config_key.as_slice(), 0) {
        Some(ci) => {
            assert(ci < count);
            let end = find_section_end(&lines, ci + 1);
            match find_config_key(&lines, key_chars.as_slice(), ci + 1, end) {
                Some(k) => {
                    proof {
                        lemma_config_key_has_colon(lines@[k as int]@, key@);
                    }
                    let replaced = replace_yaml_value(lines[k].as_slice(), value_chars.as_slice());
                    let ghost before = lines_view(lines@);
                    lines.set(k, replaced);
                    proof {
                        assert(lines_view(lines@) =~= before.update(
                            k as int,
                            replace_value_spec(before[k as int], value@),
                        ));
                    }
                },
                None => {
                    let at = match find_last_nonblank(&lines, ci + 1, end) {
                        Some(j) => j + 1,
                        None => ci + 1,
                    };
                    let entry = entry_line_exec(key_chars.as_slice(), value_chars.as_slice());
                    let ghost before = lines_view(lines@);
                    lines.insert(at, entry);
                    proof {
                        assert(lines_view(lines@) =~= before.insert(
                            at as int,
                            entry_line(key@, value@),
                        ));
                    }
                },
            }
            let joined = concat_lines_exec(&lines);
            string_of(joined.as_slice())
        },
        None => {
            let mut res = text;
            let lf = vec!['\n'];
            assert(lf@ =~= seq!['\n']);
            if !ends_with_chars(res.as_slice(), lf.as_slice()) {
                res.push('\n');
            }
            let block = config_block_exec(key_chars.as_slice(), value_chars.as_slice());
            push_all(&mut res, block.as_slice());
            proof {
                assert(res@ =~= update_yaml_spec(original@, key@, value@));
            }
            string_of(res.as_slice())
        },
    }
}

/// The YAML document that `serde_yaml::to_string` writes for the string
/// `value`, or `None` where it reports an error.
pub uninterp spec fn yaml_document(value: Seq<char>) -> Option<Seq<char>>;

/// Serializes a string with `serde_yaml::to_string`. Claimed: the call's
/// outcome is the named `yaml_document` of the string, a function of the
/// string alone; nothing is claimed of the document's text.
#[verifier::external_body]
fn serialize_yaml_string(value: &str) -> (res: Result<String, serde_yaml::Error>)
    ensures
        match res {
            Ok(s) => yaml_document(value@) == Some(s@),
            Err(_) => yaml_document(value@) is None,
        },
{
    serde_yaml::to_string(value)
}

/// `value` written as a YAML scalar: its YAML document without the trailing
/// white space.
pub fn yaml_scalar(value: &str) -> (res: Result<String, serde_yaml::Error>)
    ensures
        match yaml_document(value@) {
            Some(d) => res matches Ok(s) && s@ == trim_end(d),
            None => res is Err,
        },
{
    let document = serialize_yaml_string(value)?;
    let chars = chars_of(document.as_str());
    let n = without_trailing_space(chars.as_slice());
    let trimmed = chars_range(chars.as_slice(), 0, n);
    assert(trimmed@ =~= chars@.take(n as int));
    Ok(string_of(trimmed.as_slice()))
}

/// The configuration text `original` with `config.key` set to `path`.
pub fn update_runtime_path_yaml(original: &str, key: &str, path: &str) -> (res: Result<
    String,
    serde_yaml::Error,
>)
    ensures
        match yaml_document(path@) {
            Some(d) => res matches Ok(s) && s@ == update_yaml_spec(original@, key@, trim_end(d)),
            None => res is Err,
        },
{
    let value = yaml_scalar(path)?;
    Ok(update_runtime_path_yaml_with(original, key, value.as_str()))
}

// ---------------------------------------------------------------------------
// Laws.
// ---------------------------------------------------------------------------
proof fn lemma_line_end_bounds(s: Seq<char>, i: int)
    requires
        0 <= i < s.len(),
    ensures
        i < line_end(s, i) <= s.len(),
    decreases s.len() - i,
{
    if s[i] != '\n' {
        if i + 1 < s.len() {
            lemma_line_end_bounds(s, i + 1);
        } else {
            assert(line_end(s, i + 1) == s.len());
        }
    }
}

proof fn lemma_concat_append(a: Seq<Seq<char>>, b: Seq<Seq<char>>)
    ensures
        concat_lines(a + b) == concat_lines(a) + concat_lines(b),
    decreases b.len(),
{
    if b.len() == 0 {
        assert(a + b =~= a);
        assert(concat_lines(a) + Seq::<char>::empty() =~= concat_lines(a));
    } else {
        lemma_concat_append(a, b.drop_last());
        assert((a + b).drop_last() =~= a + b.drop_last());
        assert((a + b).last() == b.last());
        assert(concat_lines(a) + concat_lines(b.drop_last()) + b.last() =~= concat_lines(a) + (
        concat_lines(b.drop_last()) + b.last()));
    }
}

proof fn lemma_lines_from_concat(s: Seq<char>, i: int)
    requires
        0 <= i <= s.len(),
    ensures
        concat_lines(lines_from(s, i)) == s.skip(i),
    decreases s.len() - i,
{
    if i >= s.len() {
        assert(s.skip(i) =~= Seq::<char>::empty());
    } else {
        lemma_line_end_bounds(s, i);
        let e = line_end(s, i);
        lemma_lines_from_concat(s, e);
        lemma_concat_append(seq![s.subrange(i, e)], lines_from(s, e));
        assert(concat_lines(seq![s.subrange(i, e)]) == concat_lines(Seq::<Seq<char>>::empty()) + s.subrange(
            i,
            e,
        )) by {
            assert(seq![s.subrange(i, e)].drop_last() =~= Seq::<Seq<char>>::empty());
        }
        assert(Seq::<char>::empty() + s.subrange(i, e) =~= s.subrange(i, e));
        assert(s.subrange(i, e) + s.skip(e) =~= s.skip(i));
    }
}

/// The lines of a text, put back together, are the text: editing one line
/// leaves the rest of the file as it was.
pub proof fn lemma_split_lines_concat(s: Seq<char>)
    ensures
        concat_lines(split_lines(s)) == s,
{
    lemma_lines_from_concat(s, 0);
    assert(s.skip(0) =~= s);
}

/// `s` without its line breaks at the end does not end with one.
proof fn lemma_trim_newlines_last(s: Seq<char>)
    ensures
        trim_newlines(s).len() > 0 ==> !is_newline_char(trim_newlines(s).last()),
    decreases s.len(),
{
    if s.len() > 0 && is_newline_char(s.last()) {
        lemma_trim_newlines_last(s.drop_last());
    }
}

/// `s` ends with `\n`, or with `\r\n`, as read off its last characters.
proof fn lemma_ends_with_line_break(s: Seq<char>)
    ensures
        ends_with(s, seq!['\n']) == (s.len() >= 1 && s[s.len() - 1] == '\n'),
        ends_with(s, seq!['\r', '\n']) == (s.len() >= 2 && s[s.len() - 2] == '\r' && s[s.len() - 1] == '\n'),
{
    if s.len() >= 1 && s[s.len() - 1] == '\n' {
        assert(s.skip(s.len() - 1) =~= seq!['\n']);
    }
    if s.len() >= 2 && s[s.len() - 2] == '\r' && s[s.len() - 1] == '\n' {
        assert(s.skip(s.len() - 2) =~= seq!['\r', '\n']);
    }
    if ends_with(s, seq!['\n']) {
        assert(s.skip(s.len() - 1)[0] == s[s.len() - 1]);
    }
    if ends_with(s, seq!['\r', '\n']) {
        assert(s.skip(s.len() - 2)[0] == s[s.len() - 2]);
        assert(s.skip(s.len() - 2)[1] == s[s.len() - 1]);
    }
}

/// Setting the value on a line keeps the line's key, its comment and its
/// line end: the text up to the first `:` stays, a space and the new value
/// follow, then the comment (from the first ` #`) and the line end, and
/// nothing else; the result ends with `\n`, or with `\r\n`, exactly when the
/// line does, whether or not it has a comment (for a value without line
/// breaks).
pub proof fn lemma_replace_keeps_key_comment_and_line_end(line: Seq<char>, value: Seq<char>)
    requires
        find(trim_newlines(line), seq![':']) is Some,
        forall|i: int| 0 <= i < value.len() ==> !is_newline_char(#[trigger] value[i]),
    ensures
        ({
            let r = replace_value_spec(line, value);
            let body = trim_newlines(line);
            let c = find(body, seq![':'])->Some_0;
            let v = c + 2 + value.len();
            &&& r.take(c + 1) == line.take(c + 1)
            &&& r[c + 1] == ' '
            &&& r.subrange(c + 2, v) == value
            &&& find(body, seq![' ', '#']) matches Some(i) ==> r.subrange(v, v + body.len() - i) == body.skip(i)
            &&& r.len() == v + (match find(body, seq![' ', '#']) {
                Some(i) => body.len() - i,
                None => 0,
            }) + (if ends_with(line, seq!['\r', '\n']) {
                2int
            } else if ends_with(line, seq!['\n']) {
                1int
            } else {
                0int
            })
            &&& ends_with(r, seq!['\n']) == ends_with(line, seq!['\n'])
            &&& ends_with(r, seq!['\r', '\n']) == ends_with(line, seq!['\r', '\n'])
        }),
{
    let r = replace_value_spec(line, value);
    let body = trim_newlines(line);
    let c = find(body, seq![':'])->Some_0;
    lemma_find_from_bounds(body, seq![':'], 0);
    lemma_find_from_bounds(body, seq![' ', '#'], 0);
    lemma_trim_newlines(line);
    lemma_trim_newlines_last(line);
    let comment = match find(body, seq![' ', '#']) {
        Some(i) => body.skip(i),
        None => Seq::empty(),
    };
    let p = body.take(c + 1) + seq![' '] + value + comment;
    let e = line_ending(line);
    assert(r == p + e);
    assert(p.len() > 0);
    assert(!is_newline_char(p.last())) by {
        if comment.len() > 0 {
            assert(p.last() == comment.last());
            assert(comment.last() == body.last());
        } else if value.len() > 0 {
            assert(p.last() == value.last());
        } else {
            assert(p.last() == ' ');
        }
    }
    assert(r.take(c + 1) =~= line.take(c + 1)) by {
        assert(body.take(c + 1) =~= line.take(c + 1));
        assert forall|j: int| 0 <= j < c + 1 implies r[j] == line[j] by {
            assert(r[j] == p[j]);
            assert(p[j] == body[j]);
        }
    }
    assert(r.subrange(c + 2, c + 2 + value.len()) =~= value) by {
        assert forall|j: int| 0 <= j < value.len() implies r[c + 2 + j] == value[j] by {
            assert(r[c + 2 + j] == p[c + 2 + j]);
        }
    }
    if let Some(i) = find(body, seq![' ', '#']) {
        let v = c + 2 + value.len();
        assert(r.subrange(v, v + body.len() - i) =~= body.skip(i)) by {
            assert forall|j: int| 0 <= j < body.len() - i implies r[v + j] == body.skip(i)[j] by {
                assert(r[v + j] == p[v + j]);
            }
        }
    }
    lemma_ends_with_line_break(r);
    lemma_ends_with_line_break(line);
    lemma_ends_with_line_break(p);
    if ends_with(line, seq!['\r', '\n']) {
        assert(e == seq!['\r', '\n']);
        assert(r[r.len() - 1] == '\n' && r[r.len() - 2] == '\r');
    } else if ends_with(line, seq!['\n']) {
        assert(e == seq!['\n']);
        assert(r[r.len() - 1] == '\n');
        assert(r[r.len() - 2] == p.last());
    } else {
        assert(e == Seq::<char>::empty());
        assert(r =~= p);
        assert(r[r.len() - 1] == p.last());
    }
}

/// A line as `split_lines` gives it: not empty, with no `\n` but possibly
/// as its last character.
pub open spec fn one_line(l: Seq<char>) -> bool {
    &&& l.len() > 0
    &&& forall|j: int| 0 <= j < l.len() - 1 ==> #[trigger] l[j] != '\n'
}

/// Lines that put together split back into themselves: each is one line,
/// and all but the last end with `\n`.
pub open spec fn lines_shaped(ls: Seq<Seq<char>>) -> bool {
    &&& forall|i: int| 0 <= i < ls.len() ==> one_line(#[trigger] ls[i])
    &&& forall|i: int| 0 <= i < ls.len() - 1 ==> (#[trigger] ls[i]).last() == '\n'
}

proof fn lemma_line_end_facts(s: Seq<char>, i: int)
    requires
        0 <= i < s.len(),
    ensures
        forall|j: int| i <= j < line_end(s, i) - 1 ==> #[trigger] s[j] != '\n',
        line_end(s, i) < s.len() ==> s[line_end(s, i) - 1] == '\n',
    decreases s.len() - i,
{
    if s[i] != '\n' {
        if i + 1 < s.len() {
            lemma_line_end_facts(s, i + 1);
            assert(line_end(s, i) == line_end(s, i + 1));
        } else {
            assert(line_end(s, i + 1) == s.len());
            assert(line_end(s, i) == s.len());
        }
    } else {
        assert(line_end(s, i) == i + 1);
    }
}

proof fn lemma_lines_from_shaped(s: Seq<char>, i: int)
    requires
        0 <= i,
    ensures
        lines_shaped(lines_from(s, i)),
    decreases s.len() - i,
{
    if i < s.len() {
        lemma_line_end_bounds(s, i);
        lemma_line_end_facts(s, i);
        let e = line_end(s, i);
        lemma_lines_from_shaped(s, e);
        let first = s.subrange(i, e);
        let rest = lines_from(s, e);
        let ls = lines_from(s, i);
        assert(ls == seq![first] + rest);
        assert forall|j: int| 0 <= j < first.len() - 1 implies #[trigger] first[j] != '\n' by {
            assert(first[j] == s[i + j]);
        }
        assert forall|k: int| 0 <= k < ls.len() implies one_line(#[trigger] ls[k]) by {
            if k > 0 {
                assert(ls[k] == rest[k - 1]);
            }
        }
        assert forall|k: int| 0 <= k < ls.len() - 1 implies (#[trigger] ls[k]).last() == '\n' by {
            if k > 0 {
                assert(ls[k] == rest[k - 1]);
            } else {
                assert(rest.len() > 0);
                assert(e < s.len());
                assert(first.last() == s[e - 1]);
            }
        }
    }
}

/// The lines of a text are shaped.
pub proof fn lemma_split_lines_shaped(s: Seq<char>)
    ensures
        lines_shaped(split_lines(s)),
{
    lemma_lines_from_shaped(s, 0);
}

proof fn lemma_line_end_shift(p: Seq<char>, q: Seq<char>, i: int)
    requires
        0 <= i <= q.len(),
    ensures
        line_end(p + q, p.len() + i) == p.len() + line_end(q, i),
    decreases q.len() - i,
{
    if i < q.len() {
        assert((p + q)[p.len() + i] == q[i]);
        if q[i] != '\n' {
            lemma_line_end_shift(p, q, i + 1);
        }
    }
}

proof fn lemma_lines_from_shift(p: Seq<char>, q: Seq<char>, i: int)
    requires
        0 <= i <= q.len(),
    ensures
        lines_from(p + q, p.len() + i) == lines_from(q, i),
    decreases q.len() - i,
{
    if i < q.len() {
        lemma_line_end_shift(p, q, i);
        lemma_line_end_bounds(q, i);
        let e = line_end(q, i);
        lemma_lines_from_shift(p, q, e);
        assert((p + q).subrange(p.len() + i, p.len() + e) =~= q.subrange(i, e));
    }
}

/// The line end of a line that is first in `l + t`.
proof fn lemma_line_end_first(l: Seq<char>, t: Seq<char>, i: int)
    requires
        one_line(l),
        t.len() > 0 ==> l.last() == '\n',
        0 <= i < l.len(),
    ensures
        line_end(l + t, i) == l.len(),
    decreases l.len() - i,
{
    let s = l + t;
    assert(s[i] == l[i]);
    if i < l.len() - 1 {
        assert(l[i] != '\n');
        lemma_line_end_first(l, t, i + 1);
    } else if s[i] != '\n' {
        assert(t.len() == 0);
        assert(line_end(s, i + 1) == s.len());
    }
}

/// Shaped lines put together split back into themselves.
pub proof fn lemma_split_concat_shaped(ls: Seq<Seq<char>>)
    requires
        lines_shaped(ls),
    ensures
        split_lines(concat_lines(ls)) == ls,
    decreases ls.len(),
{
    if ls.len() == 0 {
    } else {
        let rest = ls.skip(1);
        assert(ls =~= seq![ls[0]] + rest);
        lemma_concat_append(seq![ls[0]], rest);
        assert(concat_lines(seq![ls[0]]) == ls[0]) by {
            assert(seq![ls[0]].drop_last() =~= Seq::<Seq<char>>::empty());
            assert(concat_lines(Seq::<Seq<char>>::empty()) == Seq::<char>::empty());
            assert(Seq::<char>::empty() + ls[0] =~= ls[0]);
        }
        assert forall|i: int| 0 <= i < rest.len() implies one_line(#[trigger] rest[i]) by {
            assert(rest[i] == ls[i + 1]);
        }
        assert forall|i: int| 0 <= i < rest.len() - 1 implies (#[trigger] rest[i]).last() == '\n' by {
            assert(rest[i] == ls[i + 1]);
        }
        lemma_split_concat_shaped(rest);
        let l = ls[0];
        let t = concat_lines(rest);
        let s = l + t;
        assert(concat_lines(ls) == s);
        assert(t.len() > 0 ==> rest.len() > 0);
        assert(one_line(l));
        lemma_line_end_first(l, t, 0);
        lemma_lines_from_shift(l, t, 0);
        assert(s.subrange(0, l.len() as int) =~= l);
        assert(lines_from(s, l.len() as int) == lines_from(t, 0));
        assert(split_lines(s) == seq![l] + lines_from(s, l.len() as int));
    }
}

/// Setting the value on a line of the file, for a value without line
/// breaks, keeps it one line, ending as it did.
proof fn lemma_replaced_one_line(line: Seq<char>, value: Seq<char>)
    requires
        one_line(line),
        find(trim_newlines(line), seq![':']) is Some,
        forall|i: int| 0 <= i < value.len() ==> !is_newline_char(#[trigger] value[i]),
    ensures
        one_line(replace_value_spec(line, value)),
        replace_value_spec(line, value).last() == '\n' <==> line.last() == '\n',
{
    let r = replace_value_spec(line, value);
    lemma_replace_keeps_key_comment_and_line_end(line, value);
    lemma_ends_with_line_break(r);
    lemma_ends_with_line_break(line);
    let body = trim_newlines(line);
    let c = find(body, seq![':'])->Some_0;
    lemma_find_from_bounds(body, seq![':'], 0);
    lemma_find_from_bounds(body, seq![' ', '#'], 0);
    lemma_trim_newlines(line);
    lemma_trim_newlines_last(line);
    let comment = match find(body, seq![' ', '#']) {
        Some(i) => body.skip(i),
        None => Seq::empty(),
    };
    let p = body.take(c + 1) + seq![' '] + value + comment;
    let e = line_ending(line);
    assert(r == p + e);
    assert forall|j: int| 0 <= j < body.len() implies #[trigger] body[j] != '\n' by {
        assert(body[j] == line[j]);
        if j == line.len() - 1 {
            assert(body.len() == line.len());
            assert(!is_newline_char(body.last()));
        }
    }
    assert forall|j: int| 0 <= j < p.len() implies #[trigger] p[j] != '\n' by {
        if j < c + 1 {
            assert(p[j] == body[j]);
        } else if j == c + 1 {
        } else if j < c + 2 + value.len() {
            assert(p[j] == value[j - c - 2]);
        } else {
            let i = find(body, seq![' ', '#'])->Some_0;
            assert(p[j] == comment[j - c - 2 - value.len()]);
            assert(comment[j - c - 2 - value.len()] == body[i + j - c - 2 - value.len()]);
        }
    }
    assert forall|j: int| 0 <= j < r.len() - 1 implies #[trigger] r[j] != '\n' by {
        if j < p.len() {
            assert(r[j] == p[j]);
        } else {
            assert(e == seq!['\r', '\n']);
            assert(r[j] == '\r');
        }
    }
}

/// Setting `config.key` when the `config` section already holds that entry
/// edits that one line and nothing else: the lines of the result are the
/// lines of the file with the entry's line replaced by itself with the new
/// value, which keeps the entry's key and line end (for a value without line
/// breaks).
pub proof fn lemma_set_existing_key_edits_one_line(original: Seq<char>, key: Seq<char>, value: Seq<char>)
    requires
        original.len() > 0,
        forall|i: int| 0 <= i < value.len() ==> !is_newline_char(#[trigger] value[i]),
        first_top_level_key(split_lines(original), config_word(), 0) is Some,
        first_config_key(
            split_lines(original),
            key,
            first_top_level_key(split_lines(original), config_word(), 0)->Some_0 + 1,
            section_end(
                split_lines(original),
                first_top_level_key(split_lines(original), config_word(), 0)->Some_0 + 1,
            ),
        ) is Some,
    ensures
        ({
            let lines = split_lines(original);
            let ci = first_top_level_key(lines, config_word(), 0)->Some_0;
            let k = first_config_key(lines, key, ci + 1, section_end(lines, ci + 1))->Some_0;
            &&& 0 <= k < lines.len()
            &&& is_config_key_spec(lines[k], key)
            &&& split_lines(update_yaml_spec(original, key, value)) == lines.update(
                k,
                replace_value_spec(lines[k], value),
            )
        }),
{
    let lines = split_lines(original);
    let ci = first_top_level_key(lines, config_word(), 0)->Some_0;
    let end = section_end(lines, ci + 1);
    let k = first_config_key(lines, key, ci + 1, end)->Some_0;
    lemma_first_top_level_key_found(lines, config_word(), 0);
    lemma_first_config_key_found(lines, key, ci + 1, end);
    lemma_section_end_bounds(lines, ci + 1);
    assert(0 <= k < lines.len());
    lemma_split_lines_shaped(original);
    lemma_config_key_has_colon(lines[k], key);
    lemma_replaced_one_line(lines[k], value);
    let updated = lines.update(k, replace_value_spec(lines[k], value));
    assert forall|i: int| 0 <= i < updated.len() implies one_line(#[trigger] updated[i]) by {
        if i != k {
            assert(updated[i] == lines[i]);
        }
    }
    assert forall|i: int| 0 <= i < updated.len() - 1 implies (#[trigger] updated[i]).last() == '\n' by {
        if i != k {
            assert(updated[i] == lines[i]);
        } else {
            assert(lines[k].last() == '\n');
        }
    }
    lemma_split_concat_shaped(updated);
}

proof fn lemma_first_config_key_found(lines: Seq<Seq<char>>, key: Seq<char>, i: int, end: int)
    requires
        first_config_key(lines, key, i, end) is Some,
    ensures
        i <= first_config_key(lines, key, i, end)->Some_0 < end,
        is_config_key_spec(lines[first_config_key(lines, key, i, end)->Some_0], key),
    decreases end - i,
{
    if i < end && !is_config_key_spec(lines[i], key) {
        lemma_first_config_key_found(lines, key, i + 1, end);
    }
}

proof fn lemma_first_top_level_key_found(lines: Seq<Seq<char>>, key: Seq<char>, i: int)
    requires
        0 <= i,
        first_top_level_key(lines, key, i) is Some,
    ensures
        i <= first_top_level_key(lines, key, i)->Some_0 < lines.len(),
    decreases lines.len() - i,
{
    if i < lines.len() && !is_top_level_key_spec(lines[i], key) {
        lemma_first_top_level_key_found(lines, key, i + 1);
    }
}

proof fn lemma_section_end_bounds(lines: Seq<Seq<char>>, i: int)
    requires
        0 <= i <= lines.len(),
    ensures
        i <= section_end(lines, i) <= lines.len(),
    decreases lines.len() - i,
{
    if i < lines.len() && !is_section_boundary_spec(lines[i]) {
        lemma_section_end_bounds(lines, i + 1);
    }
}

} // verus!
