//! Line-oriented handling of TOML files: replacing the value of a field,
//! and finding the version in the `[package]` section of a Cargo manifest.
use vstd::prelude::*;
use crate::text::{
    append_chars, chars_of, copy_range, has_prefix, has_suffix, split_chars,
    split_on, starts_with, ends_with, string_of, strip_end, strip_end_chars, strip_start,
    strip_start_chars, texts, trim, trim_chars, CharClass, is_whitespace, lemma_split_on_absent,
    lemma_split_on_concat, lemma_strip_end_keeps_prefix, lemma_strip_start_skip, lemma_trim_between,
};

verus! {

// =====================================================================
// Lines
// =====================================================================

/// A line without the `\r` of a `\r\n` ending.
pub open spec fn strip_cr(l: Seq<char>) -> Seq<char> {
    if l.len() > 0 && l.last() == '\r' {
        l.drop_last()
    } else {
        l
    }
}

/// `str::lines`: the text split at `\n`, each line ended by `\n` losing a
/// `\r` before it, and no final empty line.
pub open spec fn text_lines(s: Seq<char>) -> Seq<Seq<char>> {
    let parts = split_on(s, '\n');
    let body = parts.take(parts.len() - 1).map_values(|l: Seq<char>| strip_cr(l));
    if parts.last().len() > 0 {
        body.push(parts.last())
    } else {
        body
    }
}

/// The lines of a text.
pub fn lines_of(v: &[char]) -> (out: Vec<Vec<char>>)
    ensures
        texts(out@) == text_lines(v@),
{
    let parts = split_chars(v, '\n');
    let ghost ps = texts(parts@);
    proof {
        crate::text::lemma_split_on_nonempty(v@, '\n');
    }
    let n = parts.len();
    let mut out: Vec<Vec<char>> = Vec::new();
    let mut i: usize = 0;
    assert(texts(out@) =~= ps.take(0).map_values(|l: Seq<char>| strip_cr(l)));
    while i + 1 < n
        invariant
            ps == texts(parts@),
            n == parts@.len(),
            n >= 1,
            i + 1 <= n,
            texts(out@) == ps.take(i as int).map_values(|l: Seq<char>| strip_cr(l)),
        decreases n - i,
    {
        let l = parts[i].as_slice();
        let piece = if l.len() > 0 && l[l.len() - 1] == '\r' {
            copy_range(l, 0, l.len() - 1)
        } else {
            copy_range(l, 0, l.len())
        };
        assert(ps[i as int] == parts@[i as int]@);
        assert(l@.drop_last() =~= l@.subrange(0, l@.len() - 1));
        assert(l@.subrange(0, l@.len() as int) =~= l@);
        let ghost prev = texts(out@);
        let ghost pv = piece@;
        out.push(piece);
        assert(texts(out@) =~= prev.push(pv));
        assert(ps.take(i + 1).map_values(|l: Seq<char>| strip_cr(l)) =~= ps.take(i as int).map_values(
            |l: Seq<char>| strip_cr(l),
        ).push(strip_cr(ps[i as int])));
        i = i + 1;
    }
    assert(ps[n - 1] == parts@[n - 1]@);
    let last = parts[n - 1].as_slice();
    if last.len() > 0 {
        let ghost prev = texts(out@);
        let piece = copy_range(last, 0, last.len());
        assert(last@.subrange(0, last@.len() as int) =~= last@);
        let ghost pv = piece@;
        out.push(piece);
        assert(texts(out@) =~= prev.push(pv));
    }
    out
}

// =====================================================================
// Updating a field
// =====================================================================

/// The line written for a field: `field = "value"` and a newline.
pub open spec fn field_line(field: Seq<char>, value: Seq<char>) -> Seq<char> {
    field + " = \""@ + value + "\""@ + "\n"@
}

/// Whether a line sets the field: it holds an `=`, and the trimmed text
/// before the first `=` is the field's name.
pub open spec fn sets_field(line: Seq<char>, field: Seq<char>) -> bool {
    let t = trim(line);
    t.contains('=') && trim(t.subrange(0, first_index_of(t, '='))) == field
}

/// Whether a line sets the field.
fn line_sets_field(line: &[char], field: &[char]) -> (b: bool)
    ensures
        b == sets_field(line@, field@),
{
    let t = trim_chars(line);
    match find_first(t.as_slice(), '=') {
        Some(k) => {
            let key_raw = copy_range(t.as_slice(), 0, k);
            let key = trim_chars(key_raw.as_slice());
            crate::validation::same_chars(key.as_slice(), field)
        },
        None => false,
    }
}

/// The first `k` lines rewritten: a line that sets the field becomes the
/// new field line, every other line is kept.
pub open spec fn rewritten_lines(lines: Seq<Seq<char>>, k: int, field: Seq<char>, value: Seq<char>) -> Seq<
    char,
>
    decreases k,
{
    if k <= 0 {
        Seq::<char>::empty()
    } else {
        rewritten_lines(lines, k - 1, field, value) + if sets_field(lines[k - 1], field) {
            field_line(field, value)
        } else {
            lines[k - 1] + "\n"@
        }
    }
}

/// The new content of a TOML file whose field is set to `value`: every
/// line that sets the field is replaced, and the field is appended when no
/// line set it.
pub open spec fn updated_toml(content: Seq<char>, field: Seq<char>, value: Seq<char>) -> Seq<char> {
    let lines = text_lines(content);
    rewritten_lines(lines, lines.len() as int, field, value) + if exists|i: int|
        0 <= i < lines.len() && sets_field(#[trigger] lines[i], field) {
        Seq::<char>::empty()
    } else {
        field_line(field, value)
    }
}

fn push_field_line(out: &mut Vec<char>, field: &[char], value: &[char])
    ensures
        final(out)@ == old(out)@ + field_line(field@, value@),
{
    append_chars(out, field);
    let a = chars_of(" = \"");
    append_chars(out, a.as_slice());
    append_chars(out, value);
    let b = chars_of("\"");
    append_chars(out, b.as_slice());
    let c = chars_of("\n");
    append_chars(out, c.as_slice());
    assert(out@ =~= old(out)@ + field_line(field@, value@));
}

/// The content written back when a TOML file's field is set to
/// `new_string`.
pub fn updated_toml_content(content: &str, new_string: &str, field: &str) -> (s: String)
    ensures
        s@ == updated_toml(content@, field@, new_string@),
{
    let cs = chars_of(content);
    let value = chars_of(new_string);
    let f = chars_of(field);
    let lines = lines_of(cs.as_slice());
    let ghost ls = texts(lines@);
    let newline = chars_of("\n");
    let mut out: Vec<char> = Vec::new();
    let mut found = false;
    let mut i: usize = 0;
    while i < lines.len()
        invariant
            ls == texts(lines@),
            ls == text_lines(content@),
            f@ == field@,
            value@ == new_string@,
            newline@ == "\n"@,
            i <= lines@.len(),
            out@ == rewritten_lines(ls, i as int, field@, new_string@),
            found <==> exists|j: int| 0 <= j < i && sets_field(#[trigger] ls[j], field@),
        decreases lines@.len() - i,
    {
        assert(ls[i as int] == lines@[i as int]@);
        if line_sets_field(lines[i].as_slice(), f.as_slice()) {
            push_field_line(&mut out, f.as_slice(), value.as_slice());
            found = true;
        } else {
            append_chars(&mut out, lines[i].as_slice());
            append_chars(&mut out, newline.as_slice());
        }
        i = i + 1;
    }
    if !found {
        push_field_line(&mut out, f.as_slice(), value.as_slice());
    }
    assert(out@ =~= updated_toml(content@, field@, new_string@));
    string_of(out.as_slice())
}

/// Rewriting more lines only adds to the rewritten text.
proof fn lemma_rewritten_prefix(lines: Seq<Seq<char>>, m: int, n: int, field: Seq<char>, value: Seq<char>)
    requires
        0 <= m <= n,
    ensures
        rewritten_lines(lines, m, field, value).len() <= rewritten_lines(lines, n, field, value).len(),
        rewritten_lines(lines, n, field, value).subrange(
            0,
            rewritten_lines(lines, m, field, value).len() as int,
        ) == rewritten_lines(lines, m, field, value),
    decreases n - m,
{
    let rm = rewritten_lines(lines, m, field, value);
    if m < n {
        lemma_rewritten_prefix(lines, m, n - 1, field, value);
        let rp = rewritten_lines(lines, n - 1, field, value);
        let rn = rewritten_lines(lines, n, field, value);
        assert(rn.subrange(0, rp.len() as int) =~= rp);
        assert(rn.subrange(0, rm.len() as int) =~= rp.subrange(0, rm.len() as int));
    } else {
        assert(rm.subrange(0, rm.len() as int) =~= rm);
    }
}

/// After an update the file holds the field's line with the new value:
/// in place of the lines that set the field, or appended.
pub proof fn lemma_update_sets_field(content: Seq<char>, field: Seq<char>, value: Seq<char>)
    ensures
        exists|k: int|
            0 <= k && k + field_line(field, value).len() <= updated_toml(content, field, value).len()
                && #[trigger] updated_toml(content, field, value).subrange(
                k,
                k + field_line(field, value).len(),
            ) == field_line(field, value),
{
    let lines = text_lines(content);
    let n = lines.len() as int;
    let fl = field_line(field, value);
    let u = updated_toml(content, field, value);
    let r = rewritten_lines(lines, n, field, value);
    if exists|i: int| 0 <= i < lines.len() && sets_field(#[trigger] lines[i], field) {
        let i = choose|i: int| 0 <= i < lines.len() && sets_field(#[trigger] lines[i], field);
        assert(u =~= r);
        lemma_rewritten_prefix(lines, i + 1, n, field, value);
        let ri = rewritten_lines(lines, i, field, value);
        let ri1 = rewritten_lines(lines, i + 1, field, value);
        assert(ri1 == ri + fl);
        let k = ri.len() as int;
        assert(u.subrange(k, k + fl.len()) =~= ri1.subrange(k, k + fl.len()));
        assert(u.subrange(k, k + fl.len()) == fl);
    } else {
        assert(u == r + fl);
        let k = r.len() as int;
        assert(u.subrange(k, k + fl.len()) =~= fl);
    }
}

/// Whether a text is all whitespace.
pub open spec fn blank(w: Seq<char>) -> bool {
    forall|i: int| 0 <= i < w.len() ==> is_whitespace(#[trigger] w[i])
}

/// Whether a text can be a key: non-empty, without `=`, and beginning and
/// ending with non-whitespace.
pub open spec fn plain_key(key: Seq<char>) -> bool {
    key.len() > 0 && !key.contains('=') && !is_whitespace(key[0]) && !is_whitespace(key.last())
}

/// How a line `key = rest`, with any whitespace around the key and before
/// the `=`, is seen once trimmed: its first `=` follows the key and that
/// whitespace.
proof fn lemma_assignment(w1: Seq<char>, key: Seq<char>, w2: Seq<char>, rest: Seq<char>)
    requires
        blank(w1),
        blank(w2),
        plain_key(key),
    ensures
        ({
            let t = trim(w1 + key + w2 + seq!['='] + rest);
            let p: int = (key.len() + w2.len()) as int;
            &&& t.contains('=')
            &&& t.len() > p
            &&& first_index_of(t, '=') == p
            &&& t.subrange(0, p + 1) == key + w2 + seq!['=']
            &&& trim(t.subrange(0, first_index_of(t, '='))) == key
            &&& (rest.len() > 0 && !is_whitespace(rest.last())) ==> t == key + w2 + seq!['='] + rest
        }),
{
    let l = w1 + key + w2 + seq!['='] + rest;
    let u = key + w2 + seq!['='] + rest;
    let p: int = (key.len() + w2.len()) as int;
    assert forall|j: int| 0 <= j < w1.len() implies CharClass::Whitespace.holds(#[trigger] l[j]) by {
        assert(l[j] == w1[j]);
    }
    lemma_strip_start_skip(l, CharClass::Whitespace, w1.len() as int);
    assert(l.subrange(w1.len() as int, l.len() as int) =~= u);
    assert(u[0] == key[0]);
    assert(strip_start(u, CharClass::Whitespace) == u);
    let t = strip_end(u, CharClass::Whitespace);
    assert(trim(l) == t);
    assert(u[p] == '=');
    lemma_strip_end_keeps_prefix(u, CharClass::Whitespace, p);
    assert(u.subrange(0, p + 1) =~= key + w2 + seq!['=']);
    assert(t[p] == '=') by {
        assert(t.subrange(0, p + 1)[p] == t[p]);
    }
    assert(t.contains('='));
    lemma_first_index_of(t, '=');
    let fi = first_index_of(t, '=');
    assert forall|j: int| 0 <= j < p implies t[j] != '=' by {
        assert(t[j] == t.subrange(0, p + 1)[j]);
        if j < key.len() {
            assert((key + w2 + seq!['='])[j] == key[j]);
            if key[j] == '=' {
                assert(key.contains('='));
            }
        } else {
            assert((key + w2 + seq!['='])[j] == w2[j - key.len()]);
            assert(is_whitespace(w2[j - key.len()]));
        }
    }
    assert(fi == p);
    assert(t.subrange(0, p) =~= key + w2) by {
        assert forall|j: int| 0 <= j < p implies t.subrange(0, p)[j] == (key + w2)[j] by {
            assert(t[j] == t.subrange(0, p + 1)[j]);
        }
    }
    assert(blank(Seq::<char>::empty()));
    lemma_trim_between(Seq::<char>::empty(), key, w2);
    assert(Seq::<char>::empty() + key + w2 =~= key + w2);
    if rest.len() > 0 && !is_whitespace(rest.last()) {
        assert(u.last() == rest.last());
        assert(t == u);
    }
}

/// The lines of a text without a newline: the text itself.
proof fn lemma_one_line(l: Seq<char>)
    requires
        l.len() > 0,
        !l.contains('\n'),
    ensures
        text_lines(l) == seq![l],
{
    lemma_split_on_absent(l, '\n');
    let parts = split_on(l, '\n');
    assert(parts.take(parts.len() - 1).map_values(|x: Seq<char>| strip_cr(x)) =~= Seq::<Seq<char>>::empty());
}

/// A line sets exactly the field named before its first `=`, whatever
/// whitespace surrounds the name: setting the field replaces such a line
/// by the new assignment, and keeps a line that assigns another key,
/// adding the assignment after it.
pub proof fn lemma_assignment_sets_field(
    w1: Seq<char>,
    key: Seq<char>,
    w2: Seq<char>,
    rest: Seq<char>,
    field: Seq<char>,
    value: Seq<char>,
)
    requires
        blank(w1),
        blank(w2),
        plain_key(key),
    ensures
        sets_field(w1 + key + w2 + seq!['='] + rest, field) <==> key == field,
        !(w1 + key + w2 + seq!['='] + rest).contains('\n') ==> updated_toml(
            w1 + key + w2 + seq!['='] + rest,
            field,
            value,
        ) == if key == field {
            field_line(field, value)
        } else {
            w1 + key + w2 + seq!['='] + rest + seq!['\n'] + field_line(field, value)
        },
{
    lemma_assignment(w1, key, w2, rest);
    let l = w1 + key + w2 + seq!['='] + rest;
    if !l.contains('\n') {
        lemma_one_line(l);
        let lines = text_lines(l);
        assert(lines[0] == l);
        assert(rewritten_lines(lines, 0, field, value) == Seq::<char>::empty());
        reveal_strlit("\n");
        if key == field {
            assert(sets_field(lines[0], field));
            assert(rewritten_lines(lines, 1, field, value) =~= field_line(field, value));
        } else {
            assert(!exists|i: int| 0 <= i < lines.len() && sets_field(#[trigger] lines[i], field));
            assert(rewritten_lines(lines, 1, field, value) =~= l + seq!['\n']);
        }
    }
}

/// What updating a field writes: the new content, first to a temporary
/// file, which then replaces the file itself.
pub struct TomlUpdate {
    /// `<path>.tmp`.
    pub temp_path: String,
    /// The file's new text.
    pub content: String,
}

/// Checks a request to set `field` of the TOML file at `path` to
/// `new_string`, and tells what to write.  The field's name must not be
/// empty and the file must exist (`file_exists`); `content` is the file's
/// text, read once both checks pass, and is ignored otherwise.
pub fn safe_update_toml_field(
    path: &str,
    new_string: &str,
    field: &str,
    file_exists: bool,
    content: &str,
) -> (r: Result<TomlUpdate, String>)
    ensures
        field@.len() == 0 ==> (r matches Err(m) && m@ == "Field name cannot be empty"@),
        field@.len() > 0 && !file_exists ==> (r matches Err(m) && m@ == "File not found: "@
            + path@),
        field@.len() > 0 && file_exists ==> (r matches Ok(u) && u.temp_path@ == path@ + ".tmp"@
            && u.content@ == updated_toml(content@, field@, new_string@)),
{
    if field.is_empty() {
        return Err(String::from_str("Field name cannot be empty"));
    }
    if !file_exists {
        let mut m = String::from_str("File not found: ");
        m.append(path);
        return Err(m);
    }
    let mut temp_path = String::from_str(path);
    temp_path.append(".tmp");
    Ok(TomlUpdate { temp_path, content: updated_toml_content(content, new_string, field) })
}

// =====================================================================
// The package version of a Cargo manifest
// =====================================================================

/// The index of the first `c` in `s` (`s.len()` when there is none).
pub open spec fn first_index_of(s: Seq<char>, c: char) -> int
    decreases s.len(),
{
    if s.len() == 0 {
        0
    } else if s[0] == c {
        0
    } else {
        1 + first_index_of(s.drop_first(), c)
    }
}

proof fn lemma_first_index_of(s: Seq<char>, c: char)
    ensures
        0 <= first_index_of(s, c) <= s.len(),
        first_index_of(s, c) < s.len() <==> s.contains(c),
        first_index_of(s, c) < s.len() ==> s[first_index_of(s, c)] == c,
        forall|j: int| 0 <= j < first_index_of(s, c) ==> s[j] != c,
    decreases s.len(),
{
    if s.len() > 0 && s[0] != c {
        lemma_first_index_of(s.drop_first(), c);
        if s.drop_first().contains(c) {
            let k = choose|k: int| 0 <= k < s.drop_first().len() && s.drop_first()[k] == c;
            assert(s[k + 1] == c);
        }
        if s.contains(c) {
            let k = choose|k: int| 0 <= k < s.len() && s[k] == c;
            assert(s.drop_first()[k - 1] == c);
        }
        assert forall|j: int| 0 <= j < first_index_of(s, c) implies s[j] != c by {
            if j > 0 {
                assert(s[j] == s.drop_first()[j - 1]);
            }
        }
    }
}

/// `str::find` of a character: its first index, if any.
pub fn find_first(v: &[char], c: char) -> (r: Option<usize>)
    ensures
        match r {
            Some(k) => v@.contains(c) && k == first_index_of(v@, c) && k < v@.len(),
            None => !v@.contains(c),
        },
{
    proof {
        lemma_first_index_of(v@, c);
    }
    let mut i: usize = 0;
    while i < v.len()
        invariant
            i <= v@.len(),
            forall|j: int| 0 <= j < i ==> v@[j] != c,
        decreases v@.len() - i,
    {
        if v[i] == c {
            assert(v@[i as int] == c);
            proof {
                lemma_first_index_of(v@, c);
                if first_index_of(v@, c) < i {
                    assert(v@[first_index_of(v@, c)] == c);
                }
            }
            return Some(i);
        }
        i = i + 1;
    }
    None
}

/// The version text of a `version = ...` value: an inline comment and the
/// quotes around it removed.
pub open spec fn version_value(v: Seq<char>) -> Seq<char> {
    let w = if v.contains('#') {
        trim(v.subrange(0, first_index_of(v, '#')))
    } else {
        v
    };
    strip_end(
        strip_start(
            strip_end(strip_start(w, CharClass::Only('"')), CharClass::Only('"')),
            CharClass::Only('\''),
        ),
        CharClass::Only('\''),
    )
}

/// The version found in the lines, reading from the first one, given
/// whether the reader is inside the `[package]` section.
pub open spec fn version_scan(lines: Seq<Seq<char>>, in_package: bool) -> Option<Seq<char>>
    decreases lines.len(),
{
    if lines.len() == 0 {
        None
    } else {
        let t = trim(lines[0]);
        let rest = lines.drop_first();
        if t.len() == 0 || starts_with(t, "#"@) {
            version_scan(rest, in_package)
        } else if starts_with(t, "["@) && ends_with(t, "]"@) {
            version_scan(rest, t == "[package]"@)
        } else if !in_package {
            version_scan(rest, in_package)
        } else if t.contains('=') && trim(t.subrange(0, first_index_of(t, '='))) == "version"@ {
            Some(version_value(trim(t.subrange(first_index_of(t, '=') + 1, t.len() as int))))
        } else {
            version_scan(rest, in_package)
        }
    }
}

/// The version in the `[package]` section of a manifest's text.
pub open spec fn package_version_of(content: Seq<char>) -> Option<Seq<char>> {
    version_scan(text_lines(content), false)
}

fn version_value_chars(v: &[char]) -> (out: Vec<char>)
    ensures
        out@ == version_value(v@),
{
    let w = match find_first(v, '#') {
        Some(k) => {
            let head = copy_range(v, 0, k);
            trim_chars(head.as_slice())
        },
        None => copy_range(v, 0, v.len()),
    };
    assert(v@.subrange(0, v@.len() as int) =~= v@);
    let a = strip_start_chars(w.as_slice(), &CharClass::Only('"'));
    let b = strip_end_chars(a.as_slice(), &CharClass::Only('"'));
    let c = strip_start_chars(b.as_slice(), &CharClass::Only('\''));
    strip_end_chars(c.as_slice(), &CharClass::Only('\''))
}

/// A manifest whose `[package]` section sets `version` to a quoted text
/// gives that text as the version, whatever whitespace stands before the
/// key and around the `=`.
pub proof fn lemma_package_version_found(w1: Seq<char>, w2: Seq<char>, w3: Seq<char>, v: Seq<char>)
    requires
        blank(w1),
        blank(w2),
        blank(w3),
        !(w1 + w2 + w3 + v).contains('\n'),
        !v.contains('"'),
        !v.contains('\''),
        !v.contains('#'),
    ensures
        package_version_of(
            "[package]\n"@ + w1 + "version"@ + w2 + "="@ + w3 + "\""@ + v + "\""@,
        ) == Some(v),
{
    reveal_strlit("[package]\n");
    reveal_strlit("[package]");
    reveal_strlit("version");
    reveal_strlit("=");
    reveal_strlit("\"");
    reveal_strlit("#");
    reveal_strlit("[");
    reveal_strlit("]");
    let head = seq!['[', 'p', 'a', 'c', 'k', 'a', 'g', 'e', ']'];
    let key = seq!['v', 'e', 'r', 's', 'i', 'o', 'n'];
    let q = seq!['"'] + v + seq!['"'];
    let rest = w3 + q;
    let l = w1 + key + w2 + seq!['='] + rest;
    let content = "[package]\n"@ + w1 + "version"@ + w2 + "="@ + w3 + "\""@ + v + "\""@;
    assert(content =~= head + seq!['\n'] + l);
    // the two lines
    assert(!head.contains('\n'));
    assert(!l.contains('\n')) by {
        if l.contains('\n') {
            let i = choose|i: int| 0 <= i < l.len() && l[i] == '\n';
            let all = w1 + w2 + w3 + v;
            if i < w1.len() {
                assert(all[i] == w1[i]);
            } else if i < w1.len() + 7 {
            } else if i < w1.len() + 7 + w2.len() {
                assert(all[i - 7] == w2[i - 7 - w1.len()]);
            } else if i == w1.len() + 7 + w2.len() {
            } else if i < w1.len() + 8 + w2.len() + w3.len() {
                assert(all[i - 8] == w3[i - 8 - w1.len() - w2.len()]);
            } else if i == w1.len() + 8 + w2.len() + w3.len() {
            } else if i < l.len() - 1 {
                assert(all[i - 9] == v[i - 9 - w1.len() - w2.len() - w3.len()]);
            }
            assert(all.contains('\n'));
        }
    }
    lemma_split_on_concat(head, l, '\n');
    lemma_split_on_absent(head, '\n');
    lemma_split_on_absent(l, '\n');
    let parts = split_on(content, '\n');
    assert(parts =~= seq![head, l]);
    assert(parts.take(1).map_values(|x: Seq<char>| strip_cr(x)) =~= seq![head]);
    assert(l.len() > 0);
    let lines = text_lines(content);
    assert(lines =~= seq![head, l]);
    // the section header
    assert(trim(head) == head);
    assert(starts_with(head, "["@) && ends_with(head, "]"@)) by {
        assert(head.subrange(0, 1) =~= "["@);
        assert(head.subrange(8, 9) =~= "]"@);
    }
    assert(head.subrange(0, 1) != "#"@) by {
        assert(head.subrange(0, 1)[0] != "#"@[0]);
    }
    assert(head =~= "[package]"@);
    assert(lines.drop_first() =~= seq![l]);
    assert(version_scan(lines, false) == version_scan(seq![l], true));
    // the version line
    assert(plain_key(key)) by {
        assert(!key.contains('='));
    }
    assert(q.last() == '"');
    lemma_assignment(w1, key, w2, rest);
    let t = trim(l);
    assert(t == key + w2 + seq!['='] + rest);
    assert(t[0] == 'v');
    assert(t.subrange(0, 1) != "#"@);
    assert(t.subrange(0, 1) != "["@);
    assert(key =~= "version"@);
    let p: int = (key.len() + w2.len()) as int;
    assert(t.subrange(p + 1, t.len() as int) =~= w3 + q + Seq::<char>::empty());
    assert(blank(Seq::<char>::empty()));
    lemma_trim_between(w3, q, Seq::<char>::empty());
    // the value
    assert(!q.contains('#')) by {
        if q.contains('#') {
            let i = choose|i: int| 0 <= i < q.len() && q[i] == '#';
            assert(v[i - 1] == '#');
        }
    }
    assert(q.drop_first() =~= v + seq!['"']);
    if v.len() == 0 {
        assert(seq!['"'].drop_first() =~= Seq::<char>::empty());
        assert(strip_start(Seq::<char>::empty(), CharClass::Only('"')) == Seq::<char>::empty());
        assert(strip_start(v + seq!['"'], CharClass::Only('"')) == Seq::<char>::empty());
        assert(strip_end(Seq::<char>::empty(), CharClass::Only('"')) == Seq::<char>::empty());
        assert(strip_start(Seq::<char>::empty(), CharClass::Only('\'')) == Seq::<char>::empty());
        assert(strip_end(Seq::<char>::empty(), CharClass::Only('\'')) == Seq::<char>::empty());
        assert(v =~= Seq::<char>::empty());
    } else {
        assert(v[0] != '"' && v[0] != '\'') by {
            assert(v.contains(v[0]));
        }
        assert(v.last() != '"' && v.last() != '\'') by {
            assert(v.contains(v[v.len() - 1]));
        }
        assert((v + seq!['"'])[0] == v[0]);
        assert(strip_start(v + seq!['"'], CharClass::Only('"')) == v + seq!['"']);
        assert((v + seq!['"']).drop_last() =~= v);
        assert(strip_end(v, CharClass::Only('"')) == v);
        assert(strip_start(v, CharClass::Only('\'')) == v);
        assert(strip_end(v, CharClass::Only('\'')) == v);
    }
    assert(version_value(q) == v);
}

/// A `version` set in any other section than `[package]` is not the
/// package's version.
pub proof fn lemma_other_section_version_ignored(w1: Seq<char>, w2: Seq<char>, rest: Seq<char>)
    requires
        blank(w1),
        blank(w2),
        !(w1 + w2 + rest).contains('\n'),
    ensures
        package_version_of("[dependencies]\n"@ + w1 + "version"@ + w2 + "="@ + rest) == None::<
            Seq<char>,
        >,
{
    reveal_strlit("[dependencies]\n");
    reveal_strlit("[package]");
    reveal_strlit("version");
    reveal_strlit("=");
    reveal_strlit("#");
    reveal_strlit("[");
    reveal_strlit("]");
    let head = seq!['[', 'd', 'e', 'p', 'e', 'n', 'd', 'e', 'n', 'c', 'i', 'e', 's', ']'];
    let key = seq!['v', 'e', 'r', 's', 'i', 'o', 'n'];
    let l = w1 + key + w2 + seq!['='] + rest;
    let content = "[dependencies]\n"@ + w1 + "version"@ + w2 + "="@ + rest;
    assert(content =~= head + seq!['\n'] + l);
    assert(!head.contains('\n'));
    assert(!l.contains('\n')) by {
        if l.contains('\n') {
            let i = choose|i: int| 0 <= i < l.len() && l[i] == '\n';
            let all = w1 + w2 + rest;
            if i < w1.len() {
                assert(all[i] == w1[i]);
            } else if i < w1.len() + 7 {
            } else if i < w1.len() + 7 + w2.len() {
                assert(all[i - 7] == w2[i - 7 - w1.len()]);
            } else if i == w1.len() + 7 + w2.len() {
            } else {
                assert(all[i - 8] == rest[i - 8 - w1.len() - w2.len()]);
            }
            assert(all.contains('\n'));
        }
    }
    lemma_split_on_concat(head, l, '\n');
    lemma_split_on_absent(head, '\n');
    lemma_split_on_absent(l, '\n');
    let parts = split_on(content, '\n');
    assert(parts =~= seq![head, l]);
    assert(parts.take(1).map_values(|x: Seq<char>| strip_cr(x)) =~= seq![head]);
    let lines = text_lines(content);
    assert(lines =~= seq![head, l]);
    assert(trim(head) == head);
    assert(starts_with(head, "["@) && ends_with(head, "]"@)) by {
        assert(head.subrange(0, 1) =~= "["@);
        assert(head.subrange(13, 14) =~= "]"@);
    }
    assert(head.subrange(0, 1) != "#"@) by {
        assert(head.subrange(0, 1)[0] != "#"@[0]);
    }
    assert(head != "[package]"@) by {
        assert(head.len() != "[package]"@.len());
    }
    assert(lines.drop_first() =~= seq![l]);
    assert(version_scan(lines, false) == version_scan(seq![l], false));
    assert(plain_key(key)) by {
        assert(!key.contains('='));
    }
    lemma_assignment(w1, key, w2, rest);
    let t = trim(l);
    assert(t.len() > 0);
    assert(t[0] == 'v') by {
        assert(t.subrange(0, (key.len() + w2.len() + 1) as int)[0] == t[0]);
        assert((key + w2 + seq!['='])[0] == key[0]);
    }
    assert(t.subrange(0, 1) != "#"@) by {
        assert(t.subrange(0, 1)[0] != "#"@[0]);
    }
    assert(!starts_with(t, "["@)) by {
        if starts_with(t, "["@) {
            assert(t.subrange(0, 1)[0] == t[0]);
        }
    }
    assert(seq![l].drop_first() =~= Seq::<Seq<char>>::empty());
    assert(version_scan(Seq::<Seq<char>>::empty(), false) == None::<Seq<char>>);
    assert(seq![l][0] == l);
    assert(version_scan(seq![l], false) == None::<Seq<char>>);
}

/// The version in the `[package]` section of a Cargo manifest's text, if
/// that section has a `version` field.
pub fn package_version(content: &str) -> (r: Option<String>)
    ensures
        match package_version_of(content@) {
            Some(v) => r matches Some(s) && s@ == v,
            None => r is None,
        },
{
    let cs = chars_of(content);
    let lines = lines_of(cs.as_slice());
    let ghost ls = texts(lines@);
    let hash = chars_of("#");
    let open = chars_of("[");
    let close = chars_of("]");
    let package = chars_of("[package]");
    let version = chars_of("version");
    let mut in_package = false;
    let mut i: usize = 0;
    assert(ls.skip(0) =~= ls);
    while i < lines.len()
        invariant
            ls == texts(lines@),
            ls == text_lines(content@),
            hash@ == "#"@,
            open@ == "["@,
            close@ == "]"@,
            package@ == "[package]"@,
            version@ == "version"@,
            i <= lines@.len(),
            package_version_of(content@) == version_scan(ls.skip(i as int), in_package),
        decreases lines@.len() - i,
    {
        let ghost rest = ls.skip(i as int);
        assert(rest[0] == lines@[i as int]@);
        assert(rest.drop_first() =~= ls.skip(i + 1));
        let t = trim_chars(lines[i].as_slice());
        if t.len() == 0 || has_prefix(t.as_slice(), hash.as_slice()) {
            i = i + 1;
            continue;
        }
        if has_prefix(t.as_slice(), open.as_slice()) && has_suffix(t.as_slice(), close.as_slice()) {
            in_package = crate::validation::same_chars(t.as_slice(), package.as_slice());
            i = i + 1;
            continue;
        }
        if !in_package {
            i = i + 1;
            continue;
        }
        match find_first(t.as_slice(), '=') {
            Some(k) => {
                let key_raw = copy_range(t.as_slice(), 0, k);
                let key = trim_chars(key_raw.as_slice());
                if crate::validation::same_chars(key.as_slice(), version.as_slice()) {
                    let value_raw = copy_range(t.as_slice(), k + 1, t.len());
                    let value = trim_chars(value_raw.as_slice());
                    let v = version_value_chars(value.as_slice());
                    return Some(string_of(v.as_slice()));
                }
            },
            None => {},
        }
        i = i + 1;
    }
    None
}

} // verus!
