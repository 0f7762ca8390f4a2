//! The JSON-like text form of validation configurations: writing it, and
//! reading it back with a small reader that splits the text at commas,
//! colons and braces.
//!
//! A range object whose `min` is above its `max` describes no range
//! (`IntegerValidationRange::new` requires ordered bounds): the readers
//! report it as `MinAboveMax`, the `read_json_string` functions return
//! that report, and the `from_json_string` functions require that it does
//! not occur.
use vstd::prelude::*;
use crate::number::{
    decimal, int_error_message, is_digit, lemma_decimal_chars, lemma_decimal_lacks,
    lemma_parse_i32_decimal, lemma_parse_usize_decimal, parse_i32, parse_i32_chars, parse_usize,
    parse_usize_chars, push_i32, push_usize,
};
use crate::text::{
    chars_of, ends_with, has_prefix, lemma_split_on_absent, lemma_split_on_concat, lemma_trim_after_space, lemma_trim_plain, has_suffix, join, join_chars, split_chars, split_on,
    starts_with, string_of, strip_both, strip_end, strip_end_chars, strip_start, strip_start_chars, texts,
    trim, trim_chars, CharClass,
};
use crate::validation::{
    ConfigModel, ErrorModel, IntegerStringValidationRule, IntegerValidationRange, RangeModel,
    RuleModel, ValidationConfiguration, ValidationError,
};

verus! {

/// What reading a JSON text gives.
pub enum JsonOutcome<M> {
    /// The value read.
    Read(M),
    /// The text was rejected with this error.
    Failed(ErrorModel),
    /// A range object has `min` above `max`.
    MinAboveMax,
}

/// The result of reading a JSON text.
pub enum JsonRead<T> {
    Read(T),
    Failed(ValidationError),
    MinAboveMax,
}

pub open spec fn range_read_view(r: JsonRead<IntegerValidationRange>) -> JsonOutcome<RangeModel> {
    match r {
        JsonRead::Read(x) => JsonOutcome::Read(x@),
        JsonRead::Failed(e) => JsonOutcome::Failed(e@),
        JsonRead::MinAboveMax => JsonOutcome::MinAboveMax,
    }
}

pub open spec fn rule_read_view(r: JsonRead<IntegerStringValidationRule>) -> JsonOutcome<RuleModel> {
    match r {
        JsonRead::Read(x) => JsonOutcome::Read(x@),
        JsonRead::Failed(e) => JsonOutcome::Failed(e@),
        JsonRead::MinAboveMax => JsonOutcome::MinAboveMax,
    }
}

/// The text of a JSON object with surrounding whitespace and the outer
/// braces removed (`trim`, `trim_start_matches('{')`, `trim_end_matches('}')`).
pub open spec fn unwrap_object(s: Seq<char>) -> Seq<char> {
    strip_end(strip_start(trim(s), CharClass::Only('{')), CharClass::Only('}'))
}

pub fn unwrap_object_chars(s: &[char]) -> (out: Vec<char>)
    ensures
        out@ == unwrap_object(s@),
{
    let t = trim_chars(s);
    let a = strip_start_chars(t.as_slice(), &CharClass::Only('{'));
    strip_end_chars(a.as_slice(), &CharClass::Only('}'))
}

// =====================================================================
// Ranges
// =====================================================================

/// `{"min": min, "max": max}`
pub open spec fn range_json(r: RangeModel) -> Seq<char> {
    "{\"min\": "@ + decimal(r.min as int) + ", \"max\": "@ + decimal(r.max as int) + "}"@
}

/// The `i32` after the first `:` of a `"key": value` part.
pub open spec fn int_field(p: Seq<char>, missing: Seq<char>) -> Result<int, ErrorModel> {
    let pieces = split_on(p, ':');
    if pieces.len() < 2 {
        Err(ErrorModel::Json(missing))
    } else {
        match parse_i32(trim(pieces[1])) {
            Err(k) => Err(ErrorModel::Parse(int_error_message(k))),
            Ok(v) => Ok(v),
        }
    }
}

/// The `min` and `max` read from the comma-separated parts of a range
/// object; a later field overrides an earlier one.
pub open spec fn range_fields(parts: Seq<Seq<char>>) -> Result<(Option<int>, Option<int>), ErrorModel>
    decreases parts.len(),
{
    if parts.len() == 0 {
        Ok((None, None))
    } else {
        match range_fields(parts.drop_last()) {
            Err(e) => Err(e),
            Ok(fields) => {
                let p = trim(parts.last());
                if starts_with(p, "\"min\""@) {
                    match int_field(p, "Missing min value"@) {
                        Err(e) => Err(e),
                        Ok(v) => Ok((Some(v), fields.1)),
                    }
                } else if starts_with(p, "\"max\""@) {
                    match int_field(p, "Missing max value"@) {
                        Err(e) => Err(e),
                        Ok(v) => Ok((fields.0, Some(v))),
                    }
                } else {
                    Ok(fields)
                }
            },
        }
    }
}

/// What reading a range object gives.
pub open spec fn range_json_outcome(s: Seq<char>) -> JsonOutcome<RangeModel> {
    match range_fields(split_on(unwrap_object(s), ',')) {
        Err(e) => JsonOutcome::Failed(e),
        Ok(fields) => match fields {
            (Some(a), Some(b)) => if a > b {
                JsonOutcome::MinAboveMax
            } else {
                JsonOutcome::Read(RangeModel { min: a as i32, max: b as i32 })
            },
            _ => JsonOutcome::Failed(ErrorModel::Json("Missing min or max value"@)),
        },
    }
}

/// Reads the `i32` after the first `:` of a part.
fn read_int_field(p: &[char], missing: &str) -> (r: Result<i32, ValidationError>)
    ensures
        match int_field(p@, missing@) {
            Ok(v) => r matches Ok(w) && w == v,
            Err(e) => r matches Err(f) && f@ == e,
        },
{
    let pieces = split_chars(p, ':');
    if pieces.len() < 2 {
        return Err(ValidationError::JsonError(String::from_str(missing)));
    }
    assert(texts(pieces@)[1] == pieces@[1]@);
    let v = trim_chars(pieces[1].as_slice());
    match parse_i32_chars(v.as_slice()) {
        Err(k) => Err(ValidationError::from_int_error(&k)),
        Ok(x) => Ok(x),
    }
}

pub open spec fn as_int_opt(o: Option<i32>) -> Option<int> {
    match o {
        Some(v) => Some(v as int),
        None => None,
    }
}

/// Reads a range object from characters.
pub fn read_range_chars(s: &[char]) -> (r: JsonRead<IntegerValidationRange>)
    ensures
        range_read_view(r) == range_json_outcome(s@),
{
    let t = unwrap_object_chars(s);
    let parts = split_chars(t.as_slice(), ',');
    let ghost ps = texts(parts@);
    let min_key = chars_of("\"min\"");
    let max_key = chars_of("\"max\"");
    let mut min_value: Option<i32> = None;
    let mut max_value: Option<i32> = None;
    let mut i: usize = 0;
    while i < parts.len()
        invariant
            ps == texts(parts@),
            ps == split_on(unwrap_object(s@), ','),
            min_key@ == "\"min\""@,
            max_key@ == "\"max\""@,
            i <= parts@.len(),
            range_fields(ps.subrange(0, i as int)) == Ok::<(Option<int>, Option<int>), ErrorModel>(
                (as_int_opt(min_value), as_int_opt(max_value)),
            ),
        decreases parts@.len() - i,
    {
        assert(ps.subrange(0, i + 1).drop_last() =~= ps.subrange(0, i as int));
        assert(ps[i as int] == parts@[i as int]@);
        let p = trim_chars(parts[i].as_slice());
        if has_prefix(p.as_slice(), min_key.as_slice()) {
            match read_int_field(p.as_slice(), "Missing min value") {
                Err(e) => {
                    proof {
                        lemma_range_fields_error(ps, (i + 1) as int);
                    }
                    return JsonRead::Failed(e);
                },
                Ok(v) => {
                    min_value = Some(v);
                },
            }
        } else if has_prefix(p.as_slice(), max_key.as_slice()) {
            match read_int_field(p.as_slice(), "Missing max value") {
                Err(e) => {
                    proof {
                        lemma_range_fields_error(ps, (i + 1) as int);
                    }
                    return JsonRead::Failed(e);
                },
                Ok(v) => {
                    max_value = Some(v);
                },
            }
        }
        i = i + 1;
    }
    assert(ps.subrange(0, parts@.len() as int) =~= ps);
    match (min_value, max_value) {
        (Some(a), Some(b)) => {
            if a > b {
                JsonRead::MinAboveMax
            } else {
                JsonRead::Read(IntegerValidationRange::new(a, b))
            }
        },
        _ => JsonRead::Failed(ValidationError::JsonError(String::from_str("Missing min or max value"))),
    }
}

/// Once the fields of a prefix of the parts fail, the fields of all parts
/// fail the same way.
proof fn lemma_range_fields_error(ps: Seq<Seq<char>>, n: int)
    requires
        0 <= n <= ps.len(),
        range_fields(ps.subrange(0, n)) is Err,
    ensures
        range_fields(ps) == range_fields(ps.subrange(0, n)),
    decreases ps.len() - n,
{
    if n < ps.len() {
        assert(ps.drop_last().subrange(0, n) =~= ps.subrange(0, n));
        lemma_range_fields_error(ps.drop_last(), n);
    } else {
        assert(ps.subrange(0, n) =~= ps);
    }
}

/// `key: <decimal x>` splits at its colon into the key and the number
/// after a space, which trimming recovers.
proof fn lemma_key_value(key: Seq<char>, x: int)
    requires
        !key.contains(':'),
    ensures
        split_on(key + seq![':', ' '] + decimal(x), ':') == seq![key, seq![' '] + decimal(x)],
        trim(seq![' '] + decimal(x)) == decimal(x),
{
    let d = decimal(x);
    let tail = seq![' '] + d;
    lemma_decimal_chars(x);
    lemma_decimal_lacks(x, ':');
    assert(key + seq![':', ' '] + d =~= key + seq![':'] + tail);
    assert(!tail.contains(':')) by {
        if tail.contains(':') {
            let k = choose|k: int| 0 <= k < tail.len() && tail[k] == ':';
            assert(d[k - 1] == ':');
        }
    }
    lemma_split_on_concat(key, tail, ':');
    lemma_split_on_absent(key, ':');
    lemma_split_on_absent(tail, ':');
    assert(split_on(key + seq![':'] + tail, ':') =~= seq![key, tail]);
    assert(d[0] == '-' || is_digit(d[0]));
    lemma_trim_after_space(d);
}

/// `key: <decimal x>` read as an integer field gives `x`.
proof fn lemma_int_field_of_decimal(key: Seq<char>, x: i32, missing: Seq<char>)
    requires
        !key.contains(':'),
    ensures
        int_field(key + seq![':', ' '] + decimal(x as int), missing) == Ok::<int, ErrorModel>(
            x as int,
        ),
{
    lemma_key_value(key, x as int);
    lemma_parse_i32_decimal(x);
}

/// A text that has none of the given character, built from pieces that
/// have none of it.
proof fn lemma_lacks_concat(a: Seq<char>, b: Seq<char>, c: char)
    requires
        !a.contains(c),
        !b.contains(c),
    ensures
        !(a + b).contains(c),
{
    if (a + b).contains(c) {
        let k = choose|k: int| 0 <= k < (a + b).len() && (a + b)[k] == c;
        if k < a.len() {
            assert(a[k] == c);
        } else {
            assert(b[k - a.len()] == c);
        }
    }
}

/// Reading back the text of a range gives the range.
/// The fields read from `{<first key>: x, <second key>: y}`, where the keys
/// are `"min"` and `"max"` in either order.
proof fn lemma_two_range_fields(min_first: bool, x: i32, y: i32)
    ensures
        ({
            let kmin = seq!['"', 'm', 'i', 'n', '"'];
            let kmax = seq!['"', 'm', 'a', 'x', '"'];
            let (k1, k2) = if min_first { (kmin, kmax) } else { (kmax, kmin) };
            let s = seq!['{'] + k1 + seq![':', ' '] + decimal(x as int) + seq![',', ' '] + k2 + seq![
                ':',
                ' ',
            ] + decimal(y as int) + seq!['}'];
            range_fields(split_on(unwrap_object(s), ',')) == Ok::<(Option<int>, Option<int>), ErrorModel>(
                if min_first {
                    (Some(x as int), Some(y as int))
                } else {
                    (Some(y as int), Some(x as int))
                },
            )
        }),
{
    reveal_strlit("\"min\"");
    reveal_strlit("\"max\"");
    let kmin = seq!['"', 'm', 'i', 'n', '"'];
    let kmax = seq!['"', 'm', 'a', 'x', '"'];
    assert(kmin =~= "\"min\""@);
    assert(kmax =~= "\"max\""@);
    let (k1, k2) = if min_first { (kmin, kmax) } else { (kmax, kmin) };
    let d1 = decimal(x as int);
    let d2 = decimal(y as int);
    lemma_decimal_chars(x as int);
    lemma_decimal_chars(y as int);
    lemma_decimal_lacks(x as int, ',');
    lemma_decimal_lacks(y as int, ',');
    let p1 = k1 + seq![':', ' '] + d1;
    let q2 = k2 + seq![':', ' '] + d2;
    let p2 = seq![' '] + q2;
    let inner = p1 + seq![','] + p2;
    let s = seq!['{'] + k1 + seq![':', ' '] + d1 + seq![',', ' '] + k2 + seq![':', ' '] + d2 + seq!['}'];
    assert(s =~= seq!['{'] + inner + seq!['}']);
    lemma_trim_plain(s);
    assert(s.drop_first() =~= inner + seq!['}']);
    assert(strip_start(inner + seq!['}'], CharClass::Only('{')) == inner + seq!['}']);
    assert((inner + seq!['}']).drop_last() =~= inner);
    assert(inner.last() == d2.last());
    assert(strip_end(inner, CharClass::Only('}')) == inner);
    assert(unwrap_object(s) == inner);
    assert(!k1.contains(',') && !k2.contains(',') && !seq![':', ' '].contains(',') && !seq![
        ' ',
    ].contains(','));
    lemma_lacks_concat(k1, seq![':', ' '], ',');
    lemma_lacks_concat(k1 + seq![':', ' '], d1, ',');
    lemma_lacks_concat(k2, seq![':', ' '], ',');
    lemma_lacks_concat(k2 + seq![':', ' '], d2, ',');
    lemma_lacks_concat(seq![' '], q2, ',');
    lemma_split_on_concat(p1, p2, ',');
    lemma_split_on_absent(p1, ',');
    lemma_split_on_absent(p2, ',');
    let parts = split_on(inner, ',');
    assert(parts =~= seq![p1, p2]);
    assert(!k1.contains(':') && !k2.contains(':'));
    lemma_int_field_of_decimal(k1, x, "Missing min value"@);
    lemma_int_field_of_decimal(k1, x, "Missing max value"@);
    lemma_int_field_of_decimal(k2, y, "Missing min value"@);
    lemma_int_field_of_decimal(k2, y, "Missing max value"@);
    assert(p1[0] == '"');
    assert(p1.last() == d1.last());
    lemma_trim_plain(p1);
    assert(p1.subrange(0, 5) =~= k1);
    assert(q2[0] == '"');
    assert(q2.last() == d2.last());
    lemma_trim_after_space(q2);
    assert(q2.subrange(0, 5) =~= k2);
    assert(kmin != kmax) by {
        assert(kmin[2] != kmax[2]);
    }
    assert(parts.drop_last() =~= seq![p1]);
    assert(seq![p1].drop_last() =~= Seq::<Seq<char>>::empty());
    assert(range_fields(Seq::<Seq<char>>::empty()) == Ok::<(Option<int>, Option<int>), ErrorModel>(
        (None, None),
    ));
    assert(seq![p1].last() == p1);
    assert(parts.last() == p2);
    if min_first {
        assert(starts_with(trim(p1), "\"min\""@));
        assert(range_fields(seq![p1]) == Ok::<(Option<int>, Option<int>), ErrorModel>(
            (Some(x as int), None),
        ));
        assert(!starts_with(trim(p2), "\"min\""@));
        assert(starts_with(trim(p2), "\"max\""@));
    } else {
        assert(!starts_with(trim(p1), "\"min\""@));
        assert(starts_with(trim(p1), "\"max\""@));
        assert(range_fields(seq![p1]) == Ok::<(Option<int>, Option<int>), ErrorModel>(
            (None, Some(x as int)),
        ));
        assert(starts_with(trim(p2), "\"min\""@));
    }
}

/// Reading back the text of a range gives the range.
pub proof fn lemma_range_json_roundtrip(r: RangeModel)
    requires
        r.min <= r.max,
    ensures
        range_json_outcome(range_json(r)) == JsonOutcome::Read(r),
{
    lemma_range_json_any_order(r.min, r.max);
}

/// A range object reads the same whichever of its two fields comes first:
/// `{"min": a, "max": b}` and `{"max": b, "min": a}` both give the range
/// `[a, b]` when `a <= b`, and are both refused as `MinAboveMax` otherwise.
pub proof fn lemma_range_json_any_order(a: i32, b: i32)
    ensures
        range_json_outcome("{\"min\": "@ + decimal(a as int) + ", \"max\": "@ + decimal(b as int) + "}"@)
            == (if a <= b {
            JsonOutcome::Read(RangeModel { min: a, max: b })
        } else {
            JsonOutcome::MinAboveMax
        }),
        range_json_outcome("{\"max\": "@ + decimal(b as int) + ", \"min\": "@ + decimal(a as int) + "}"@)
            == (if a <= b {
            JsonOutcome::Read(RangeModel { min: a, max: b })
        } else {
            JsonOutcome::MinAboveMax
        }),
        range_json(RangeModel { min: a, max: b }) == "{\"min\": "@ + decimal(a as int) + ", \"max\": "@
            + decimal(b as int) + "}"@,
{
    reveal_strlit("{\"min\": ");
    reveal_strlit(", \"max\": ");
    reveal_strlit("{\"max\": ");
    reveal_strlit(", \"min\": ");
    reveal_strlit("}");
    let kmin = seq!['"', 'm', 'i', 'n', '"'];
    let kmax = seq!['"', 'm', 'a', 'x', '"'];
    lemma_two_range_fields(true, a, b);
    lemma_two_range_fields(false, b, a);
    assert("{\"min\": "@ + decimal(a as int) + ", \"max\": "@ + decimal(b as int) + "}"@ =~= seq!['{']
        + kmin + seq![':', ' '] + decimal(a as int) + seq![',', ' '] + kmax + seq![':', ' '] + decimal(
        b as int,
    ) + seq!['}']);
    assert("{\"max\": "@ + decimal(b as int) + ", \"min\": "@ + decimal(a as int) + "}"@ =~= seq!['{']
        + kmax + seq![':', ' '] + decimal(b as int) + seq![',', ' '] + kmin + seq![':', ' '] + decimal(
        a as int,
    ) + seq!['}']);
}

impl IntegerValidationRange {
    /// `{"min": min, "max": max}`
    pub fn to_json_string(&self) -> (s: String)
        ensures
            s@ == range_json(self@),
    {
        let mut s = String::from_str("{\"min\": ");
        push_i32(&mut s, self.get_minimum_value());
        s.append(", \"max\": ");
        push_i32(&mut s, self.get_maximum_value());
        s.append("}");
        assert(s@ =~= range_json(self@));
        s
    }

    /// Reads a range object, reporting a range with `min` above `max`.
    pub fn read_json_string(json_string: &str) -> (r: JsonRead<IntegerValidationRange>)
        ensures
            range_read_view(r) == range_json_outcome(json_string@),
    {
        let cs = chars_of(json_string);
        read_range_chars(cs.as_slice())
    }

    /// Reads a range object.
    pub fn from_json_string(json_string: &str) -> (r: Result<Self, ValidationError>)
        requires
            !(range_json_outcome(json_string@) is MinAboveMax),
        ensures
            match range_json_outcome(json_string@) {
                JsonOutcome::Read(m) => r matches Ok(x) && x@ == m,
                JsonOutcome::Failed(e) => r matches Err(f) && f@ == e,
                JsonOutcome::MinAboveMax => false,
            },
    {
        match Self::read_json_string(json_string) {
            JsonRead::Read(x) => Ok(x),
            JsonRead::Failed(e) => Err(e),
            JsonRead::MinAboveMax => vstd::pervasive::unreached(),
        }
    }
}

// =====================================================================
// Integer-string rules
// =====================================================================

/// `{"range": range, "max_string_length": n}`
pub open spec fn rule_json(u: RuleModel) -> Seq<char> {
    "{\"range\": "@ + range_json(u.range) + ", \"max_string_length\": "@ + decimal(u.max_len as int)
        + "}"@
}

/// The index of the last `c` in `s` (0 when there is none).
pub open spec fn last_index_of(s: Seq<char>, c: char) -> int
    decreases s.len(),
{
    if s.len() == 0 {
        0
    } else if s.last() == c {
        s.len() - 1
    } else {
        last_index_of(s.drop_last(), c)
    }
}

proof fn lemma_last_index_of(s: Seq<char>, c: char)
    requires
        s.contains(c),
    ensures
        0 <= last_index_of(s, c) < s.len(),
        s[last_index_of(s, c)] == c,
    decreases s.len(),
{
    if s.last() != c {
        let k = choose|k: int| 0 <= k < s.len() && s[k] == c;
        assert(s.drop_last()[k] == c);
        lemma_last_index_of(s.drop_last(), c);
    }
}

/// `str::rfind` of a character.
fn find_last(v: &[char], c: char) -> (r: Option<usize>)
    ensures
        match r {
            Some(k) => v@.contains(c) && k == last_index_of(v@, c) && k < v@.len() && v@[k as int] == c,
            None => !v@.contains(c),
        },
{
    let mut n: usize = v.len();
    assert(v@.subrange(0, v@.len() as int) =~= v@);
    while n > 0
        invariant
            n <= v@.len(),
            last_index_of(v@, c) == last_index_of(v@.subrange(0, n as int), c),
            forall|j: int| n <= j < v@.len() ==> v@[j] != c,
        decreases n,
    {
        let ghost pre = v@.subrange(0, n as int);
        assert(pre.drop_last() =~= v@.subrange(0, n - 1));
        if v[n - 1] == c {
            assert(v@[n - 1] == c);
            proof {
                lemma_last_index_of(v@, c);
            }
            return Some(n - 1);
        }
        n = n - 1;
    }
    assert(!v@.contains(c));
    None
}

/// The state of the reader of a rule object after some characters.
pub struct RuleScan {
    pub depth: int,
    pub current: Seq<char>,
    pub in_range: bool,
    pub range_json: Option<Seq<char>>,
    pub max_len: Option<int>,
}

/// What a finished part at nesting depth 0 sets the length bound to.
pub open spec fn rule_part(old_max: Option<int>, p: Seq<char>) -> Result<Option<int>, ErrorModel> {
    if starts_with(p, "\"max_string_length\""@) {
        let pieces = split_on(p, ':');
        if pieces.len() < 2 {
            Err(ErrorModel::Json("Missing max_string_length value"@))
        } else {
            match parse_usize(trim(pieces[1])) {
                Err(_) => Err(ErrorModel::Json("Invalid max_string_length value"@)),
                Ok(n) => Ok(Some(n)),
            }
        }
    } else {
        Ok(old_max)
    }
}

/// One character of the rule reader.
pub open spec fn rule_step(st: Result<RuleScan, ErrorModel>, c: char) -> Result<RuleScan, ErrorModel> {
    match st {
        Err(e) => Err(e),
        Ok(s) => if c == '{' {
            let d = s.depth + 1;
            Ok(
                RuleScan {
                    depth: d,
                    current: s.current.push(c),
                    in_range: if d == 1 && ends_with(trim(s.current), "range\":"@) {
                        true
                    } else {
                        s.in_range
                    },
                    range_json: s.range_json,
                    max_len: s.max_len,
                },
            )
        } else if c == '}' {
            let d = s.depth - 1;
            let cur = s.current.push(c);
            if d == 0 && s.in_range {
                Ok(
                    RuleScan {
                        depth: d,
                        current: Seq::<char>::empty(),
                        in_range: false,
                        range_json: Some(cur.subrange(last_index_of(cur, '{'), cur.len() as int)),
                        max_len: s.max_len,
                    },
                )
            } else {
                Ok(
                    RuleScan {
                        depth: d,
                        current: cur,
                        in_range: s.in_range,
                        range_json: s.range_json,
                        max_len: s.max_len,
                    },
                )
            }
        } else if c == ',' && s.depth == 0 {
            match rule_part(s.max_len, trim(s.current)) {
                Err(e) => Err(e),
                Ok(m) => Ok(
                    RuleScan {
                        depth: s.depth,
                        current: Seq::<char>::empty(),
                        in_range: s.in_range,
                        range_json: s.range_json,
                        max_len: m,
                    },
                ),
            }
        } else {
            Ok(
                RuleScan {
                    depth: s.depth,
                    current: s.current.push(c),
                    in_range: s.in_range,
                    range_json: s.range_json,
                    max_len: s.max_len,
                },
            )
        },
    }
}

/// The rule reader after the characters `cs`.
pub open spec fn rule_scan(cs: Seq<char>) -> Result<RuleScan, ErrorModel>
    decreases cs.len(),
{
    if cs.len() == 0 {
        Ok(
            RuleScan {
                depth: 0,
                current: Seq::<char>::empty(),
                in_range: false,
                range_json: None,
                max_len: None,
            },
        )
    } else {
        rule_step(rule_scan(cs.drop_last()), cs.last())
    }
}

/// What reading a rule object gives.
pub open spec fn rule_json_outcome(s: Seq<char>) -> JsonOutcome<RuleModel> {
    match rule_scan(unwrap_object(s)) {
        Err(e) => JsonOutcome::Failed(e),
        Ok(st) => {
            let fin = if st.current.len() > 0 {
                rule_part(st.max_len, trim(st.current))
            } else {
                Ok(st.max_len)
            };
            match fin {
                Err(e) => JsonOutcome::Failed(e),
                Ok(ml) => match (st.range_json, ml) {
                    (Some(r), Some(n)) => match range_json_outcome(r) {
                        JsonOutcome::Read(rm) => JsonOutcome::Read(
                            RuleModel { range: rm, max_len: n as usize },
                        ),
                        JsonOutcome::Failed(e) => JsonOutcome::Failed(e),
                        JsonOutcome::MinAboveMax => JsonOutcome::MinAboveMax,
                    },
                    _ => JsonOutcome::Failed(ErrorModel::Json("Missing range or max_string_length"@)),
                },
            }
        },
    }
}

pub open spec fn as_int_opt_usize(o: Option<usize>) -> Option<int> {
    match o {
        Some(v) => Some(v as int),
        None => None,
    }
}

pub open spec fn chars_opt(o: Option<Vec<char>>) -> Option<Seq<char>> {
    match o {
        Some(v) => Some(v@),
        None => None,
    }
}

/// Processes a finished part of a rule object.
fn read_rule_part(old_max: Option<usize>, p: &[char]) -> (r: Result<Option<usize>, ValidationError>)
    ensures
        match rule_part(as_int_opt_usize(old_max), p@) {
            Ok(m) => r matches Ok(n) && as_int_opt_usize(n) == m,
            Err(e) => r matches Err(f) && f@ == e,
        },
{
    let key = chars_of("\"max_string_length\"");
    if has_prefix(p, key.as_slice()) {
        let pieces = split_chars(p, ':');
        if pieces.len() < 2 {
            return Err(ValidationError::JsonError(String::from_str("Missing max_string_length value")));
        }
        assert(texts(pieces@)[1] == pieces@[1]@);
        let v = trim_chars(pieces[1].as_slice());
        match parse_usize_chars(v.as_slice()) {
            Err(_) => Err(ValidationError::JsonError(String::from_str("Invalid max_string_length value"))),
            Ok(n) => Ok(Some(n)),
        }
    } else {
        Ok(old_max)
    }
}

proof fn lemma_rule_scan_error(cs: Seq<char>, n: int)
    requires
        0 <= n <= cs.len(),
        rule_scan(cs.subrange(0, n)) is Err,
    ensures
        rule_scan(cs) == rule_scan(cs.subrange(0, n)),
    decreases cs.len() - n,
{
    if n < cs.len() {
        assert(cs.drop_last().subrange(0, n) =~= cs.subrange(0, n));
        lemma_rule_scan_error(cs.drop_last(), n);
    } else {
        assert(cs.subrange(0, n) =~= cs);
    }
}

/// Reads a rule object from characters.
pub fn read_rule_chars(s: &[char]) -> (r: JsonRead<IntegerStringValidationRule>)
    ensures
        rule_read_view(r) == rule_json_outcome(s@),
{
    let t = unwrap_object_chars(s);
    let range_key = chars_of("range\":");
    let mut depth: i128 = 0;
    let mut current: Vec<char> = Vec::new();
    let mut in_range = false;
    let mut range_json: Option<Vec<char>> = None;
    let mut max_length: Option<usize> = None;
    let mut i: usize = 0;
    assert(t@.subrange(0, 0) =~= Seq::<char>::empty());
    while i < t.len()
        invariant
            t@ == unwrap_object(s@),
            range_key@ == "range\":"@,
            i <= t@.len(),
            -(i as int) <= depth <= i as int,
            in_range ==> current@.contains('{') && depth >= 1,
            rule_scan(t@.subrange(0, i as int)) == Ok::<RuleScan, ErrorModel>(
                RuleScan {
                    depth: depth as int,
                    current: current@,
                    in_range,
                    range_json: chars_opt(range_json),
                    max_len: as_int_opt_usize(max_length),
                },
            ),
        decreases t@.len() - i,
    {
        let ghost cs = t@.subrange(0, i + 1);
        assert(cs.drop_last() =~= t@.subrange(0, i as int));
        assert(cs.last() == t@[i as int]);
        let c = t[i];
        if c == '{' {
            depth = depth + 1;
            let tc = trim_chars(current.as_slice());
            if depth == 1 && has_suffix(tc.as_slice(), range_key.as_slice()) {
                in_range = true;
            }
            current.push(c);
            assert(current@.last() == '{');
            assert(current@.contains('{'));
        } else if c == '}' {
            depth = depth - 1;
            let ghost before = current@;
            current.push(c);
            proof {
                if in_range {
                    let k = choose|k: int| 0 <= k < before.len() && before[k] == '{';
                    assert(current@[k] == '{');
                }
            }
            if depth == 0 && in_range {
                match find_last(current.as_slice(), '{') {
                    Some(k) => {
                        let piece = crate::text::copy_range(current.as_slice(), k, current.len());
                        range_json = Some(piece);
                    },
                    None => {
                        proof {
                            let k = choose|k: int| 0 <= k < before.len() && before[k] == '{';
                            assert(current@[k] == '{');
                        }
                        return vstd::pervasive::unreached();
                    },
                }
                in_range = false;
                current = Vec::new();
            }
        } else if c == ',' && depth == 0 {
            let p = trim_chars(current.as_slice());
            match read_rule_part(max_length, p.as_slice()) {
                Err(e) => {
                    proof {
                        lemma_rule_scan_error(t@, (i + 1) as int);
                    }
                    return JsonRead::Failed(e);
                },
                Ok(m) => {
                    max_length = m;
                },
            }
            current = Vec::new();
        } else {
            let ghost before = current@;
            current.push(c);
            proof {
                if in_range {
                    let k = choose|k: int| 0 <= k < before.len() && before[k] == '{';
                    assert(current@[k] == '{');
                }
            }
        }
        assert(rule_scan(cs) == Ok::<RuleScan, ErrorModel>(
            RuleScan {
                depth: depth as int,
                current: current@,
                in_range,
                range_json: chars_opt(range_json),
                max_len: as_int_opt_usize(max_length),
            },
        ));
        i = i + 1;
    }
    assert(t@.subrange(0, t@.len() as int) =~= t@);
    let fin = if current.len() > 0 {
        let p = trim_chars(current.as_slice());
        read_rule_part(max_length, p.as_slice())
    } else {
        Ok(max_length)
    };
    match fin {
        Err(e) => JsonRead::Failed(e),
        Ok(ml) => match (range_json, ml) {
            (Some(r), Some(n)) => match read_range_chars(r.as_slice()) {
                JsonRead::Read(rm) => JsonRead::Read(IntegerStringValidationRule::new(rm, n)),
                JsonRead::Failed(e) => JsonRead::Failed(e),
                JsonRead::MinAboveMax => JsonRead::MinAboveMax,
            },
            _ => JsonRead::Failed(ValidationError::JsonError(String::from_str("Missing range or max_string_length"))),
        },
    }
}

/// A character that is not in a text is not in its prefixes, nor at its
/// end.
proof fn lemma_lacks_drop_last(b: Seq<char>, c: char)
    requires
        b.len() > 0,
        !b.contains(c),
    ensures
        !b.drop_last().contains(c),
        b.last() != c,
{
    assert(b[b.len() - 1] == b.last());
    if b.drop_last().contains(c) {
        let k = choose|k: int| 0 <= k < b.drop_last().len() && b.drop_last()[k] == c;
        assert(b[k] == c);
    }
}

/// The rule reader only collects characters that open, close and separate
/// nothing.
proof fn lemma_rule_scan_plain(a: Seq<char>, b: Seq<char>, st: RuleScan)
    requires
        rule_scan(a) == Ok::<RuleScan, ErrorModel>(st),
        !b.contains('{'),
        !b.contains('}'),
        st.depth != 0 || !b.contains(','),
    ensures
        rule_scan(a + b) == Ok::<RuleScan, ErrorModel>(RuleScan { current: st.current + b, ..st }),
    decreases b.len(),
{
    if b.len() == 0 {
        assert(a + b =~= a);
        assert(st.current + b =~= st.current);
    } else {
        let b0 = b.drop_last();
        lemma_lacks_drop_last(b, '{');
        lemma_lacks_drop_last(b, '}');
        if st.depth == 0 {
            lemma_lacks_drop_last(b, ',');
        }
        lemma_rule_scan_plain(a, b0, st);
        assert((a + b).drop_last() =~= a + b0);
        assert((a + b).last() == b.last());
        assert((st.current + b0).push(b.last()) =~= st.current + b);
    }
}

/// The last `c` of `a + [c] + b`, when `b` has none, is the one between.
proof fn lemma_last_index_between(a: Seq<char>, b: Seq<char>, c: char)
    requires
        !b.contains(c),
    ensures
        last_index_of(a + seq![c] + b, c) == a.len(),
    decreases b.len(),
{
    let s = a + seq![c] + b;
    if b.len() == 0 {
        assert(s.last() == c);
    } else {
        lemma_lacks_drop_last(b, c);
        assert(s.drop_last() =~= a + seq![c] + b.drop_last());
        assert(s.last() == b.last());
        lemma_last_index_between(a, b.drop_last(), c);
    }
}

/// `"range": `
spec fn range_key() -> Seq<char> {
    seq!['"', 'r', 'a', 'n', 'g', 'e', '"', ':', ' ']
}

/// `"max_string_length"`
spec fn length_key() -> Seq<char> {
    seq!['"', 'm', 'a', 'x', '_', 's', 't', 'r', 'i', 'n', 'g', '_', 'l', 'e', 'n', 'g', 't', 'h', '"']
}

/// What is left of the text of a rule once its braces come off.
spec fn rule_inner(u: RuleModel) -> Seq<char> {
    range_key() + range_json(u.range) + seq![','] + (seq![' '] + length_key() + seq![':', ' '] + decimal(
        u.max_len as int,
    ))
}

proof fn lemma_rule_json_unwrap(u: RuleModel)
    ensures
        unwrap_object(rule_json(u)) == rule_inner(u),
{
    reveal_strlit("{\"range\": ");
    reveal_strlit(", \"max_string_length\": ");
    reveal_strlit("}");
    let inner = rule_inner(u);
    let s = rule_json(u);
    let d3 = decimal(u.max_len as int);
    lemma_decimal_chars(u.max_len as int);
    assert(s =~= seq!['{'] + inner + seq!['}']);
    lemma_trim_plain(s);
    assert(s.drop_first() =~= inner + seq!['}']);
    assert(strip_start(inner + seq!['}'], CharClass::Only('{')) == inner + seq!['}']);
    assert((inner + seq!['}']).drop_last() =~= inner);
    assert(inner.last() == d3.last());
    assert(strip_end(inner, CharClass::Only('}')) == inner);
}

/// The part of a range's text between its braces.
spec fn range_inner(r: RangeModel) -> Seq<char> {
    seq!['"', 'm', 'i', 'n', '"', ':', ' '] + decimal(r.min as int) + seq![
        ',',
        ' ',
        '"',
        'm',
        'a',
        'x',
        '"',
        ':',
        ' ',
    ] + decimal(r.max as int)
}

proof fn lemma_range_inner(r: RangeModel)
    ensures
        range_json(r) == seq!['{'] + range_inner(r) + seq!['}'],
        !range_inner(r).contains('{'),
        !range_inner(r).contains('}'),
{
    reveal_strlit("{\"min\": ");
    reveal_strlit(", \"max\": ");
    reveal_strlit("}");
    assert(range_json(r) =~= seq!['{'] + range_inner(r) + seq!['}']);
    let d1 = decimal(r.min as int);
    let d2 = decimal(r.max as int);
    let pa = seq!['"', 'm', 'i', 'n', '"', ':', ' '];
    let pb = seq![',', ' ', '"', 'm', 'a', 'x', '"', ':', ' '];
    lemma_decimal_lacks(r.min as int, '{');
    lemma_decimal_lacks(r.min as int, '}');
    lemma_decimal_lacks(r.max as int, '{');
    lemma_decimal_lacks(r.max as int, '}');
    assert(!pa.contains('{') && !pa.contains('}') && !pb.contains('{') && !pb.contains('}'));
    lemma_lacks_concat(pa, d1, '{');
    lemma_lacks_concat(pa + d1, pb, '{');
    lemma_lacks_concat(pa + d1 + pb, d2, '{');
    lemma_lacks_concat(pa, d1, '}');
    lemma_lacks_concat(pa + d1, pb, '}');
    lemma_lacks_concat(pa + d1 + pb, d2, '}');
}

/// The reader holds the range's text once it has read it.
proof fn lemma_rule_scan_range(r: RangeModel)
    ensures
        rule_scan(range_key() + range_json(r)) == Ok::<RuleScan, ErrorModel>(
            RuleScan {
                depth: 0,
                current: Seq::<char>::empty(),
                in_range: false,
                range_json: Some(range_json(r)),
                max_len: None,
            },
        ),
{
    reveal_strlit("range\":");
    let k = range_key();
    let inner_r = range_inner(r);
    lemma_range_inner(r);
    let init = RuleScan {
        depth: 0,
        current: Seq::<char>::empty(),
        in_range: false,
        range_json: None,
        max_len: None,
    };
    assert(rule_scan(Seq::<char>::empty()) == Ok::<RuleScan, ErrorModel>(init));
    assert(!k.contains('{') && !k.contains('}') && !k.contains(','));
    lemma_rule_scan_plain(Seq::<char>::empty(), k, init);
    assert(Seq::<char>::empty() + k =~= k);
    // the opening brace
    assert(k.push('{').drop_last() =~= k);
    assert(trim(k) =~= k.drop_last()) by {
        assert(strip_start(k, CharClass::Whitespace) == k);
        assert(k.drop_last().last() == ':');
        assert(strip_end(k.drop_last(), CharClass::Whitespace) == k.drop_last());
    }
    assert(ends_with(trim(k), "range\":"@)) by {
        assert(trim(k).subrange(1, 8) =~= "range\":"@);
    }
    let s2 = RuleScan { depth: 1, current: k.push('{'), in_range: true, ..init };
    assert(rule_scan(k.push('{')) == Ok::<RuleScan, ErrorModel>(s2));
    assert(k.push('{') =~= k + seq!['{']);
    lemma_rule_scan_plain(k + seq!['{'], inner_r, s2);
    // the closing brace
    let cur = k.push('{') + inner_r + seq!['}'];
    assert((k + seq!['{'] + inner_r).push('}') =~= k + range_json(r));
    assert((k + range_json(r)).drop_last() =~= k + seq!['{'] + inner_r);
    lemma_lacks_concat(inner_r, seq!['}'], '{');
    lemma_last_index_between(k, inner_r + seq!['}'], '{');
    assert(cur =~= k + seq!['{'] + (inner_r + seq!['}']));
    assert(cur.subrange(k.len() as int, cur.len() as int) =~= range_json(r));
    assert((k.push('{') + inner_r).push('}') =~= cur);
}

/// The reader holds the length field's text at the end of a rule's text.
proof fn lemma_rule_scan_inner(u: RuleModel)
    ensures
        rule_scan(rule_inner(u)) == Ok::<RuleScan, ErrorModel>(
            RuleScan {
                depth: 0,
                current: seq![' '] + length_key() + seq![':', ' '] + decimal(u.max_len as int),
                in_range: false,
                range_json: Some(range_json(u.range)),
                max_len: None,
            },
        ),
{
    reveal_strlit("\"max_string_length\"");
    let k = range_key();
    let rj = range_json(u.range);
    let t = seq![' '] + length_key() + seq![':', ' '];
    let d3 = decimal(u.max_len as int);
    lemma_rule_scan_range(u.range);
    let s4 = RuleScan {
        depth: 0,
        current: Seq::<char>::empty(),
        in_range: false,
        range_json: Some(rj),
        max_len: None,
    };
    assert((k + rj).push(',').drop_last() =~= k + rj);
    assert(!starts_with(trim(Seq::<char>::empty()), "\"max_string_length\""@));
    assert(rule_part(None, trim(Seq::<char>::empty())) == Ok::<Option<int>, ErrorModel>(None));
    assert(rule_scan((k + rj).push(',')) == Ok::<RuleScan, ErrorModel>(s4));
    assert((k + rj).push(',') =~= k + rj + seq![',']);
    lemma_decimal_lacks(u.max_len as int, '{');
    lemma_decimal_lacks(u.max_len as int, '}');
    lemma_decimal_lacks(u.max_len as int, ',');
    assert(!t.contains('{') && !t.contains('}') && !t.contains(','));
    lemma_lacks_concat(t, d3, '{');
    lemma_lacks_concat(t, d3, '}');
    lemma_lacks_concat(t, d3, ',');
    lemma_rule_scan_plain(k + rj + seq![','], t + d3, s4);
    assert(k + rj + seq![','] + (t + d3) =~= rule_inner(u));
}

/// Reading back the text of a rule gives the rule.
pub proof fn lemma_rule_json_roundtrip(u: RuleModel)
    requires
        u.range.min <= u.range.max,
    ensures
        rule_json_outcome(rule_json(u)) == JsonOutcome::Read(u),
{
    reveal_strlit("\"max_string_length\"");
    let key = length_key();
    assert(key =~= "\"max_string_length\""@);
    let t1 = key + seq![':', ' '];
    let d3 = decimal(u.max_len as int);
    lemma_rule_json_unwrap(u);
    lemma_rule_scan_inner(u);
    lemma_decimal_chars(u.max_len as int);
    assert(seq![' '] + key + seq![':', ' '] + d3 =~= seq![' '] + (t1 + d3));
    assert((t1 + d3)[0] == '"');
    assert((t1 + d3).last() == d3.last());
    lemma_trim_after_space(t1 + d3);
    assert((t1 + d3).subrange(0, 19) =~= key);
    assert(!key.contains(':'));
    lemma_key_value(key, u.max_len as int);
    lemma_parse_usize_decimal(u.max_len);
    assert(rule_part(None, trim(seq![' '] + (t1 + d3))) == Ok::<Option<int>, ErrorModel>(
        Some(u.max_len as int),
    ));
    lemma_range_json_roundtrip(u.range);
}

impl IntegerStringValidationRule {
    /// `{"range": {"min": min, "max": max}, "max_string_length": n}`
    pub fn to_json_string(&self) -> (s: String)
        ensures
            s@ == rule_json(self@),
    {
        let mut s = String::from_str("{\"range\": ");
        let r = self.get_integer_range().to_json_string();
        s.append(r.as_str());
        s.append(", \"max_string_length\": ");
        push_usize(&mut s, self.get_maximum_string_length());
        s.append("}");
        assert(s@ =~= rule_json(self@));
        s
    }

    /// Reads a rule object, reporting a range with `min` above `max`.
    pub fn read_json_string(json_string: &str) -> (r: JsonRead<IntegerStringValidationRule>)
        ensures
            rule_read_view(r) == rule_json_outcome(json_string@),
    {
        let cs = chars_of(json_string);
        read_rule_chars(cs.as_slice())
    }

    /// Reads a rule object.
    pub fn from_json_string(json_string: &str) -> (r: Result<Self, ValidationError>)
        requires
            !(rule_json_outcome(json_string@) is MinAboveMax),
        ensures
            match rule_json_outcome(json_string@) {
                JsonOutcome::Read(m) => r matches Ok(x) && x@ == m,
                JsonOutcome::Failed(e) => r matches Err(f) && f@ == e,
                JsonOutcome::MinAboveMax => false,
            },
    {
        match Self::read_json_string(json_string) {
            JsonRead::Read(x) => Ok(x),
            JsonRead::Failed(e) => Err(e),
            JsonRead::MinAboveMax => vstd::pervasive::unreached(),
        }
    }
}

// =====================================================================
// Arrays of objects
// =====================================================================

/// The state of an array reader after some characters: the text of the
/// object being read, the brace depth and whether a quote is open.
pub struct ArrayScan {
    pub current: Seq<char>,
    pub depth: int,
    pub in_quotes: bool,
}

/// One character of an array reader that reads each completed object with
/// `read`.
pub open spec fn array_step<M>(
    st: JsonOutcome<(Seq<M>, ArrayScan)>,
    c: char,
    read: spec_fn(Seq<char>) -> JsonOutcome<M>,
) -> JsonOutcome<(Seq<M>, ArrayScan)> {
    match st {
        JsonOutcome::Read(x) => {
            let items = x.0;
            let a = x.1;
            if c == '"' {
                JsonOutcome::Read(
                    (items, ArrayScan { current: a.current.push(c), depth: a.depth, in_quotes: !a.in_quotes }),
                )
            } else if c == '{' && !a.in_quotes {
                JsonOutcome::Read(
                    (items, ArrayScan { current: a.current.push(c), depth: a.depth + 1, in_quotes: a.in_quotes }),
                )
            } else if c == '}' && !a.in_quotes {
                let d = a.depth - 1;
                let cur = a.current.push(c);
                if d == 0 {
                    match read(trim(cur)) {
                        JsonOutcome::Read(m) => JsonOutcome::Read(
                            (
                                items.push(m),
                                ArrayScan { current: Seq::<char>::empty(), depth: d, in_quotes: a.in_quotes },
                            ),
                        ),
                        JsonOutcome::Failed(e) => JsonOutcome::Failed(e),
                        JsonOutcome::MinAboveMax => JsonOutcome::MinAboveMax,
                    }
                } else {
                    JsonOutcome::Read((items, ArrayScan { current: cur, depth: d, in_quotes: a.in_quotes }))
                }
            } else if c == ',' && !a.in_quotes && a.depth == 0 {
                JsonOutcome::Read((items, a))
            } else {
                JsonOutcome::Read(
                    (items, ArrayScan { current: a.current.push(c), depth: a.depth, in_quotes: a.in_quotes }),
                )
            }
        },
        JsonOutcome::Failed(e) => JsonOutcome::Failed(e),
        JsonOutcome::MinAboveMax => JsonOutcome::MinAboveMax,
    }
}

/// The array reader after the characters `cs`.
pub open spec fn array_scan<M>(cs: Seq<char>, read: spec_fn(Seq<char>) -> JsonOutcome<M>) -> JsonOutcome<
    (Seq<M>, ArrayScan),
>
    decreases cs.len(),
{
    if cs.len() == 0 {
        JsonOutcome::Read(
            (Seq::<M>::empty(), ArrayScan { current: Seq::<char>::empty(), depth: 0, in_quotes: false }),
        )
    } else {
        array_step(array_scan(cs.drop_last(), read), cs.last(), read)
    }
}

/// The objects read from the content of an array.
pub open spec fn array_outcome<M>(cs: Seq<char>, read: spec_fn(Seq<char>) -> JsonOutcome<M>) -> JsonOutcome<
    Seq<M>,
> {
    match array_scan(cs, read) {
        JsonOutcome::Read(x) => JsonOutcome::Read(x.0),
        JsonOutcome::Failed(e) => JsonOutcome::Failed(e),
        JsonOutcome::MinAboveMax => JsonOutcome::MinAboveMax,
    }
}

pub open spec fn range_reader() -> spec_fn(Seq<char>) -> JsonOutcome<RangeModel> {
    |s: Seq<char>| range_json_outcome(s)
}

pub open spec fn rule_reader() -> spec_fn(Seq<char>) -> JsonOutcome<RuleModel> {
    |s: Seq<char>| rule_json_outcome(s)
}

proof fn lemma_array_scan_stops<M>(cs: Seq<char>, n: int, read: spec_fn(Seq<char>) -> JsonOutcome<M>)
    requires
        0 <= n <= cs.len(),
        !(array_scan(cs.subrange(0, n), read) is Read),
    ensures
        array_scan(cs, read) == array_scan(cs.subrange(0, n), read),
    decreases cs.len() - n,
{
    if n < cs.len() {
        assert(cs.drop_last().subrange(0, n) =~= cs.subrange(0, n));
        lemma_array_scan_stops(cs.drop_last(), n, read);
    } else {
        assert(cs.subrange(0, n) =~= cs);
    }
}

pub open spec fn ranges_read_view(r: JsonRead<Vec<IntegerValidationRange>>) -> JsonOutcome<Seq<RangeModel>> {
    match r {
        JsonRead::Read(x) => JsonOutcome::Read(crate::validation::range_models(x@)),
        JsonRead::Failed(e) => JsonOutcome::Failed(e@),
        JsonRead::MinAboveMax => JsonOutcome::MinAboveMax,
    }
}

pub open spec fn rules_read_view(r: JsonRead<Vec<IntegerStringValidationRule>>) -> JsonOutcome<Seq<RuleModel>> {
    match r {
        JsonRead::Read(x) => JsonOutcome::Read(crate::validation::rule_models(x@)),
        JsonRead::Failed(e) => JsonOutcome::Failed(e@),
        JsonRead::MinAboveMax => JsonOutcome::MinAboveMax,
    }
}

/// Reads the range objects of an array's content.
pub fn read_ranges_array(content: &[char]) -> (r: JsonRead<Vec<IntegerValidationRange>>)
    ensures
        ranges_read_view(r) == array_outcome(content@, range_reader()),
{
    let mut items: Vec<IntegerValidationRange> = Vec::new();
    assert(crate::validation::range_models(items@) =~= Seq::<RangeModel>::empty());
    let mut current: Vec<char> = Vec::new();
    let mut depth: i128 = 0;
    let mut in_quotes = false;
    let mut i: usize = 0;
    assert(content@.subrange(0, 0) =~= Seq::<char>::empty());
    while i < content.len()
        invariant
            i <= content@.len(),
            -(i as int) <= depth <= i as int,
            array_scan(content@.subrange(0, i as int), range_reader()) == JsonOutcome::Read(
                (
                    crate::validation::range_models(items@),
                    ArrayScan { current: current@, depth: depth as int, in_quotes },
                ),
            ),
        decreases content@.len() - i,
    {
        let ghost cs = content@.subrange(0, i + 1);
        assert(cs.drop_last() =~= content@.subrange(0, i as int));
        assert(cs.last() == content@[i as int]);
        let c = content[i];
        if c == '"' {
            in_quotes = !in_quotes;
            current.push(c);
        } else if c == '{' && !in_quotes {
            depth = depth + 1;
            current.push(c);
        } else if c == '}' && !in_quotes {
            depth = depth - 1;
            current.push(c);
            if depth == 0 {
                let piece = trim_chars(current.as_slice());
                match read_range_chars(piece.as_slice()) {
                    JsonRead::Read(x) => {
                        let ghost prev = items@;
                        items.push(x);
                        assert(crate::validation::range_models(items@) =~= crate::validation::range_models(prev).push(x@));
                    },
                    JsonRead::Failed(e) => {
                        proof {
                            lemma_array_scan_stops(content@, (i + 1) as int, range_reader());
                        }
                        return JsonRead::Failed(e);
                    },
                    JsonRead::MinAboveMax => {
                        proof {
                            lemma_array_scan_stops(content@, (i + 1) as int, range_reader());
                        }
                        return JsonRead::MinAboveMax;
                    },
                }
                current = Vec::new();
            }
        } else if c == ',' && !in_quotes && depth == 0 {
        } else {
            current.push(c);
        }
        i = i + 1;
    }
    assert(content@.subrange(0, content@.len() as int) =~= content@);
    JsonRead::Read(items)
}

/// Reads the rule objects of an array's content.
pub fn read_rules_array(content: &[char]) -> (r: JsonRead<Vec<IntegerStringValidationRule>>)
    ensures
        rules_read_view(r) == array_outcome(content@, rule_reader()),
{
    let mut items: Vec<IntegerStringValidationRule> = Vec::new();
    assert(crate::validation::rule_models(items@) =~= Seq::<RuleModel>::empty());
    let mut current: Vec<char> = Vec::new();
    let mut depth: i128 = 0;
    let mut in_quotes = false;
    let mut i: usize = 0;
    assert(content@.subrange(0, 0) =~= Seq::<char>::empty());
    while i < content.len()
        invariant
            i <= content@.len(),
            -(i as int) <= depth <= i as int,
            array_scan(content@.subrange(0, i as int), rule_reader()) == JsonOutcome::Read(
                (
                    crate::validation::rule_models(items@),
                    ArrayScan { current: current@, depth: depth as int, in_quotes },
                ),
            ),
        decreases content@.len() - i,
    {
        let ghost cs = content@.subrange(0, i + 1);
        assert(cs.drop_last() =~= content@.subrange(0, i as int));
        assert(cs.last() == content@[i as int]);
        let c = content[i];
        if c == '"' {
            in_quotes = !in_quotes;
            current.push(c);
        } else if c == '{' && !in_quotes {
            depth = depth + 1;
            current.push(c);
        } else if c == '}' && !in_quotes {
            depth = depth - 1;
            current.push(c);
            if depth == 0 {
                let piece = trim_chars(current.as_slice());
                match read_rule_chars(piece.as_slice()) {
                    JsonRead::Read(x) => {
                        let ghost prev = items@;
                        items.push(x);
                        assert(crate::validation::rule_models(items@) =~= crate::validation::rule_models(prev).push(x@));
                    },
                    JsonRead::Failed(e) => {
                        proof {
                            lemma_array_scan_stops(content@, (i + 1) as int, rule_reader());
                        }
                        return JsonRead::Failed(e);
                    },
                    JsonRead::MinAboveMax => {
                        proof {
                            lemma_array_scan_stops(content@, (i + 1) as int, rule_reader());
                        }
                        return JsonRead::MinAboveMax;
                    },
                }
                current = Vec::new();
            }
        } else if c == ',' && !in_quotes && depth == 0 {
        } else {
            current.push(c);
        }
        i = i + 1;
    }
    assert(content@.subrange(0, content@.len() as int) =~= content@);
    JsonRead::Read(items)
}

// =====================================================================
// Configurations
// =====================================================================

/// The lines of the written `integer_ranges` entry.
pub open spec fn ranges_entry(rs: Seq<RangeModel>) -> Seq<char> {
    if rs.len() > 0 {
        "  \"integer_ranges\": [\n"@ + join(rs.map_values(|r: RangeModel| "    "@ + range_json(r)), ",\n"@)
            + "\n  ]"@
    } else {
        "  \"integer_ranges\": []"@
    }
}

/// The lines of the written `integer_string_rules` entry.
pub open spec fn rules_entry(us: Seq<RuleModel>) -> Seq<char> {
    if us.len() > 0 {
        "  \"integer_string_rules\": [\n"@ + join(us.map_values(|u: RuleModel| "    "@ + rule_json(u)), ",\n"@)
            + "\n  ]"@
    } else {
        "  \"integer_string_rules\": []"@
    }
}

/// The entries of a written configuration: its name (if any), its ranges
/// and its rules.
pub open spec fn config_entries(c: ConfigModel) -> Seq<Seq<char>> {
    let named = match c.name {
        Some(n) => seq!["  \"name\": \""@ + n + "\""@],
        None => Seq::<Seq<char>>::empty(),
    };
    named + seq![ranges_entry(c.ranges), rules_entry(c.rules)]
}

/// The written text of a configuration.
pub open spec fn config_json(c: ConfigModel) -> Seq<char> {
    "{\n"@ + join(config_entries(c), ",\n"@) + "\n}"@
}

/// The state of the reader that splits a configuration object at its
/// top-level commas.
pub struct SplitScan {
    pub parts: Seq<Seq<char>>,
    pub current: Seq<char>,
    pub braces: int,
    pub brackets: int,
    pub in_quotes: bool,
    pub escape: bool,
}

/// One character of the splitter.
pub open spec fn split_step(s: SplitScan, c: char) -> SplitScan {
    if s.escape {
        SplitScan { current: s.current.push(c), escape: false, ..s }
    } else if c == '\\' {
        SplitScan { current: s.current.push(c), escape: true, ..s }
    } else if c == '"' {
        SplitScan { current: s.current.push(c), in_quotes: !s.in_quotes, ..s }
    } else if c == '{' && !s.in_quotes {
        SplitScan { current: s.current.push(c), braces: s.braces + 1, ..s }
    } else if c == '}' && !s.in_quotes {
        SplitScan { current: s.current.push(c), braces: s.braces - 1, ..s }
    } else if c == '[' && !s.in_quotes {
        SplitScan { current: s.current.push(c), brackets: s.brackets + 1, ..s }
    } else if c == ']' && !s.in_quotes {
        SplitScan { current: s.current.push(c), brackets: s.brackets - 1, ..s }
    } else if c == ',' && !s.in_quotes && s.braces == 0 && s.brackets == 0 {
        SplitScan { parts: s.parts.push(trim(s.current)), current: Seq::<char>::empty(), ..s }
    } else {
        SplitScan { current: s.current.push(c), ..s }
    }
}

/// The splitter after the characters `cs`.
pub open spec fn split_scan(cs: Seq<char>) -> SplitScan
    decreases cs.len(),
{
    if cs.len() == 0 {
        SplitScan {
            parts: Seq::<Seq<char>>::empty(),
            current: Seq::<char>::empty(),
            braces: 0,
            brackets: 0,
            in_quotes: false,
            escape: false,
        }
    } else {
        split_step(split_scan(cs.drop_last()), cs.last())
    }
}

/// The trimmed top-level parts of a configuration object's content.
pub open spec fn top_level_parts(cs: Seq<char>) -> Seq<Seq<char>> {
    let st = split_scan(cs);
    if st.current.len() > 0 {
        st.parts.push(trim(st.current))
    } else {
        st.parts
    }
}

/// The text after the first `:` of an entry.
pub open spec fn after_first_colon(p: Seq<char>) -> Seq<char> {
    join(split_on(p, ':').skip(1), ":"@)
}

/// The text after the first `:` of an entry, with the array brackets
/// removed.
pub open spec fn array_content(p: Seq<char>) -> Seq<char> {
    strip_end(strip_start(trim(after_first_colon(p)), CharClass::Only('[')), CharClass::Only(']'))
}

/// The name given by an entry: the text after its first `:`, trimmed and
/// without the quotes around it.
pub open spec fn name_value(p: Seq<char>) -> Seq<char> {
    strip_both(trim(after_first_colon(p)), CharClass::Only('"'))
}

/// What one top-level part does to the configuration being read.
pub open spec fn config_part(st: JsonOutcome<ConfigModel>, part: Seq<char>) -> JsonOutcome<ConfigModel> {
    match st {
        JsonOutcome::Read(f) => {
            let p = trim(part);
            if starts_with(p, "\"name\":"@) {
                JsonOutcome::Read(ConfigModel { name: Some(name_value(p)), ..f })
            } else if starts_with(p, "\"integer_ranges\":"@) {
                let a = array_content(p);
                if trim(a).len() > 0 {
                    match array_outcome(a, range_reader()) {
                        JsonOutcome::Read(rs) => JsonOutcome::Read(ConfigModel { ranges: rs, ..f }),
                        JsonOutcome::Failed(e) => JsonOutcome::Failed(e),
                        JsonOutcome::MinAboveMax => JsonOutcome::MinAboveMax,
                    }
                } else {
                    JsonOutcome::Read(f)
                }
            } else if starts_with(p, "\"integer_string_rules\":"@) {
                let a = array_content(p);
                if trim(a).len() > 0 {
                    match array_outcome(a, rule_reader()) {
                        JsonOutcome::Read(us) => JsonOutcome::Read(ConfigModel { rules: us, ..f }),
                        JsonOutcome::Failed(e) => JsonOutcome::Failed(e),
                        JsonOutcome::MinAboveMax => JsonOutcome::MinAboveMax,
                    }
                } else {
                    JsonOutcome::Read(f)
                }
            } else {
                JsonOutcome::Read(f)
            }
        },
        JsonOutcome::Failed(e) => JsonOutcome::Failed(e),
        JsonOutcome::MinAboveMax => JsonOutcome::MinAboveMax,
    }
}

/// The configuration read from the first parts.
pub open spec fn config_fields(parts: Seq<Seq<char>>) -> JsonOutcome<ConfigModel>
    decreases parts.len(),
{
    if parts.len() == 0 {
        JsonOutcome::Read(
            ConfigModel { ranges: Seq::<RangeModel>::empty(), rules: Seq::<RuleModel>::empty(), name: None },
        )
    } else {
        config_part(config_fields(parts.drop_last()), parts.last())
    }
}

/// What reading a configuration object gives (without overlap checks).
pub open spec fn config_json_outcome(s: Seq<char>) -> JsonOutcome<ConfigModel> {
    config_fields(top_level_parts(unwrap_object(s)))
}

pub open spec fn config_read_view(r: JsonRead<ValidationConfiguration>) -> JsonOutcome<ConfigModel> {
    match r {
        JsonRead::Read(x) => JsonOutcome::Read(x@),
        JsonRead::Failed(e) => JsonOutcome::Failed(e@),
        JsonRead::MinAboveMax => JsonOutcome::MinAboveMax,
    }
}

/// Splits a configuration object's content at its top-level commas.
fn split_top_level(t: &[char]) -> (parts: Vec<Vec<char>>)
    ensures
        texts(parts@) == top_level_parts(t@),
{
    let mut parts: Vec<Vec<char>> = Vec::new();
    let mut current: Vec<char> = Vec::new();
    let mut braces: i128 = 0;
    let mut brackets: i128 = 0;
    let mut in_quotes = false;
    let mut escape = false;
    let mut i: usize = 0;
    assert(t@.subrange(0, 0) =~= Seq::<char>::empty());
    assert(texts(parts@) =~= Seq::<Seq<char>>::empty());
    while i < t.len()
        invariant
            i <= t@.len(),
            -(i as int) <= braces <= i as int,
            -(i as int) <= brackets <= i as int,
            split_scan(t@.subrange(0, i as int)) == (SplitScan {
                parts: texts(parts@),
                current: current@,
                braces: braces as int,
                brackets: brackets as int,
                in_quotes,
                escape,
            }),
        decreases t@.len() - i,
    {
        let ghost cs = t@.subrange(0, i + 1);
        assert(cs.drop_last() =~= t@.subrange(0, i as int));
        assert(cs.last() == t@[i as int]);
        let c = t[i];
        if escape {
            current.push(c);
            escape = false;
        } else if c == '\\' {
            escape = true;
            current.push(c);
        } else if c == '"' {
            in_quotes = !in_quotes;
            current.push(c);
        } else if c == '{' && !in_quotes {
            braces = braces + 1;
            current.push(c);
        } else if c == '}' && !in_quotes {
            braces = braces - 1;
            current.push(c);
        } else if c == '[' && !in_quotes {
            brackets = brackets + 1;
            current.push(c);
        } else if c == ']' && !in_quotes {
            brackets = brackets - 1;
            current.push(c);
        } else if c == ',' && !in_quotes && braces == 0 && brackets == 0 {
            let ghost prev = texts(parts@);
            let piece = trim_chars(current.as_slice());
            let ghost pv = piece@;
            parts.push(piece);
            assert(texts(parts@) =~= prev.push(pv));
            current = Vec::new();
        } else {
            current.push(c);
        }
        i = i + 1;
    }
    assert(t@.subrange(0, t@.len() as int) =~= t@);
    if current.len() > 0 {
        let ghost prev = texts(parts@);
        let piece = trim_chars(current.as_slice());
        let ghost pv = piece@;
        parts.push(piece);
        assert(texts(parts@) =~= prev.push(pv));
    }
    parts
}

/// The content of an entry's array.
fn after_first_colon_chars(p: &[char]) -> (out: Vec<char>)
    ensures
        out@ == after_first_colon(p@),
{
    let pieces = split_chars(p, ':');
    let mut rest: Vec<Vec<char>> = Vec::new();
    let mut i: usize = 1;
    proof {
        crate::text::lemma_split_on_nonempty(p@, ':');
    }
    assert(texts(rest@) =~= texts(pieces@).skip(1).subrange(0, 0));
    while i < pieces.len()
        invariant
            1 <= i <= pieces@.len(),
            texts(rest@) == texts(pieces@).skip(1).subrange(0, i - 1),
        decreases pieces@.len() - i,
    {
        let ghost prev = texts(rest@);
        rest.push(crate::text::copy_range(pieces[i].as_slice(), 0, pieces[i].len()));
        assert(pieces@[i as int]@.subrange(0, pieces@[i as int]@.len() as int) =~= pieces@[i as int]@);
        assert(texts(rest@) =~= prev.push(pieces@[i as int]@));
        assert(texts(pieces@).skip(1).subrange(0, i as int) =~= texts(pieces@).skip(1).subrange(0, i - 1).push(texts(pieces@)[i as int]));
        i = i + 1;
    }
    assert(texts(pieces@).skip(1).subrange(0, pieces@.len() - 1) =~= texts(pieces@).skip(1));
    let colon = chars_of(":");
    join_chars(&rest, colon.as_slice())
}

fn array_content_chars(p: &[char]) -> (out: Vec<char>)
    ensures
        out@ == array_content(p@),
{
    let joined = after_first_colon_chars(p);
    let t = trim_chars(joined.as_slice());
    let a = strip_start_chars(t.as_slice(), &CharClass::Only('['));
    strip_end_chars(a.as_slice(), &CharClass::Only(']'))
}

proof fn lemma_config_fields_stops(ps: Seq<Seq<char>>, n: int)
    requires
        0 <= n <= ps.len(),
        !(config_fields(ps.subrange(0, n)) is Read),
    ensures
        config_fields(ps) == config_fields(ps.subrange(0, n)),
    decreases ps.len() - n,
{
    if n < ps.len() {
        assert(ps.drop_last().subrange(0, n) =~= ps.subrange(0, n));
        lemma_config_fields_stops(ps.drop_last(), n);
    } else {
        assert(ps.subrange(0, n) =~= ps);
    }
}

pub open spec fn name_view(o: Option<String>) -> Option<Seq<char>> {
    match o {
        Some(n) => Some(n@),
        None => None,
    }
}

/// Reads a configuration object from characters (without overlap checks).
pub fn read_config_chars(s: &[char]) -> (r: JsonRead<ValidationConfiguration>)
    ensures
        config_read_view(r) == config_json_outcome(s@),
{
    let t = unwrap_object_chars(s);
    let parts = split_top_level(t.as_slice());
    let ghost ps = texts(parts@);
    let name_key = chars_of("\"name\":");
    let ranges_key = chars_of("\"integer_ranges\":");
    let rules_key = chars_of("\"integer_string_rules\":");
    let mut configuration_name: Option<String> = None;
    let mut integer_ranges: Vec<IntegerValidationRange> = Vec::new();
    let mut integer_string_rules: Vec<IntegerStringValidationRule> = Vec::new();
    assert(crate::validation::range_models(integer_ranges@) =~= Seq::<RangeModel>::empty());
    assert(crate::validation::rule_models(integer_string_rules@) =~= Seq::<RuleModel>::empty());
    let mut i: usize = 0;
    while i < parts.len()
        invariant
            ps == texts(parts@),
            ps == top_level_parts(unwrap_object(s@)),
            name_key@ == "\"name\":"@,
            ranges_key@ == "\"integer_ranges\":"@,
            rules_key@ == "\"integer_string_rules\":"@,
            i <= parts@.len(),
            config_fields(ps.subrange(0, i as int)) == JsonOutcome::Read(
                ConfigModel {
                    ranges: crate::validation::range_models(integer_ranges@),
                    rules: crate::validation::rule_models(integer_string_rules@),
                    name: name_view(configuration_name),
                },
            ),
        decreases parts@.len() - i,
    {
        assert(ps.subrange(0, i + 1).drop_last() =~= ps.subrange(0, i as int));
        assert(ps[i as int] == parts@[i as int]@);
        let p = trim_chars(parts[i].as_slice());
        if has_prefix(p.as_slice(), name_key.as_slice()) {
            let v = after_first_colon_chars(p.as_slice());
            let t = trim_chars(v.as_slice());
            let n = crate::text::strip_both_chars(t.as_slice(), &CharClass::Only('"'));
            configuration_name = Some(string_of(n.as_slice()));
        } else if has_prefix(p.as_slice(), ranges_key.as_slice()) {
            let a = array_content_chars(p.as_slice());
            let ta = trim_chars(a.as_slice());
            if ta.len() > 0 {
                match read_ranges_array(a.as_slice()) {
                    JsonRead::Read(rs) => {
                        integer_ranges = rs;
                    },
                    JsonRead::Failed(e) => {
                        proof {
                            lemma_config_fields_stops(ps, (i + 1) as int);
                        }
                        return JsonRead::Failed(e);
                    },
                    JsonRead::MinAboveMax => {
                        proof {
                            lemma_config_fields_stops(ps, (i + 1) as int);
                        }
                        return JsonRead::MinAboveMax;
                    },
                }
            }
        } else if has_prefix(p.as_slice(), rules_key.as_slice()) {
            let a = array_content_chars(p.as_slice());
            let ta = trim_chars(a.as_slice());
            if ta.len() > 0 {
                match read_rules_array(a.as_slice()) {
                    JsonRead::Read(us) => {
                        integer_string_rules = us;
                    },
                    JsonRead::Failed(e) => {
                        proof {
                            lemma_config_fields_stops(ps, (i + 1) as int);
                        }
                        return JsonRead::Failed(e);
                    },
                    JsonRead::MinAboveMax => {
                        proof {
                            lemma_config_fields_stops(ps, (i + 1) as int);
                        }
                        return JsonRead::MinAboveMax;
                    },
                }
            }
        }
        i = i + 1;
    }
    assert(ps.subrange(0, parts@.len() as int) =~= ps);
    JsonRead::Read(
        ValidationConfiguration::new_without_overlap_validation(
            integer_ranges,
            integer_string_rules,
            configuration_name,
        ),
    )
}

/// Appends `indent` and each written object, separated by `,\n`.
fn push_ranges_lines(out: &mut Vec<char>, rs: &Vec<IntegerValidationRange>)
    requires
        rs@.len() > 0,
    ensures
        final(out)@ == old(out)@ + join(
            crate::validation::range_models(rs@).map_values(|r: RangeModel| "    "@ + range_json(r)),
            ",\n"@,
        ),
{
    let ghost lines = crate::validation::range_models(rs@).map_values(|r: RangeModel| "    "@ + range_json(r));
    let indent = chars_of("    ");
    let sep = chars_of(",\n");
    let mut i: usize = 0;
    while i < rs.len()
        invariant
            indent@ == "    "@,
            sep@ == ",\n"@,
            i <= rs@.len(),
            lines == crate::validation::range_models(rs@).map_values(|r: RangeModel| "    "@ + range_json(r)),
            out@ == old(out)@ + join(lines.take(i as int), ",\n"@),
        decreases rs@.len() - i,
    {
        let ghost prev = out@;
        if i > 0 {
            crate::text::append_chars(out, sep.as_slice());
        }
        crate::text::append_chars(out, indent.as_slice());
        let j = chars_of(rs[i].to_json_string().as_str());
        crate::text::append_chars(out, j.as_slice());
        proof {
            let t = lines.take(i + 1);
            assert(t.drop_last() =~= lines.take(i as int));
            assert(t.last() == "    "@ + range_json(rs@[i as int]@));
            if i == 0 {
                assert(join(t, ",\n"@) == t[0]);
                assert(out@ =~= old(out)@ + join(t, ",\n"@));
            } else {
                assert(out@ =~= prev + ",\n"@ + t.last());
            }
        }
        i = i + 1;
    }
    assert(lines.take(rs@.len() as int) =~= lines);
}

/// Appends each written rule object, indented and separated by `,\n`.
fn push_rules_lines(out: &mut Vec<char>, us: &Vec<IntegerStringValidationRule>)
    requires
        us@.len() > 0,
    ensures
        final(out)@ == old(out)@ + join(
            crate::validation::rule_models(us@).map_values(|u: RuleModel| "    "@ + rule_json(u)),
            ",\n"@,
        ),
{
    let ghost lines = crate::validation::rule_models(us@).map_values(|u: RuleModel| "    "@ + rule_json(u));
    let indent = chars_of("    ");
    let sep = chars_of(",\n");
    let mut i: usize = 0;
    while i < us.len()
        invariant
            indent@ == "    "@,
            sep@ == ",\n"@,
            i <= us@.len(),
            lines == crate::validation::rule_models(us@).map_values(|u: RuleModel| "    "@ + rule_json(u)),
            out@ == old(out)@ + join(lines.take(i as int), ",\n"@),
        decreases us@.len() - i,
    {
        let ghost prev = out@;
        if i > 0 {
            crate::text::append_chars(out, sep.as_slice());
        }
        crate::text::append_chars(out, indent.as_slice());
        let j = chars_of(us[i].to_json_string().as_str());
        crate::text::append_chars(out, j.as_slice());
        proof {
            let t = lines.take(i + 1);
            assert(t.drop_last() =~= lines.take(i as int));
            assert(t.last() == "    "@ + rule_json(us@[i as int]@));
            if i == 0 {
                assert(join(t, ",\n"@) == t[0]);
                assert(out@ =~= old(out)@ + join(t, ",\n"@));
            } else {
                assert(out@ =~= prev + ",\n"@ + t.last());
            }
        }
        i = i + 1;
    }
    assert(lines.take(us@.len() as int) =~= lines);
}

impl ValidationConfiguration {
    /// The written text of the configuration; it is always produced.
    pub fn to_json_string(&self) -> (r: Result<String, ValidationError>)
        ensures
            r matches Ok(s) && s@ == config_json(self@),
    {
        let mut entries: Vec<Vec<char>> = Vec::new();
        match self.get_configuration_name() {
            Some(n) => {
                let mut e = chars_of("  \"name\": \"");
                let nc = chars_of(n.as_str());
                crate::text::append_chars(&mut e, nc.as_slice());
                let q = chars_of("\"");
                crate::text::append_chars(&mut e, q.as_slice());
                entries.push(e);
            },
            None => {},
        }
        let ghost named = texts(entries@);
        let ranges = self.get_integer_ranges();
        let re = if ranges.len() > 0 {
            let mut e = chars_of("  \"integer_ranges\": [\n");
            push_ranges_lines(&mut e, ranges);
            let tail = chars_of("\n  ]");
            crate::text::append_chars(&mut e, tail.as_slice());
            e
        } else {
            chars_of("  \"integer_ranges\": []")
        };
        let ghost rev = re@;
        entries.push(re);
        let rules = self.get_integer_string_rules();
        let ue = if rules.len() > 0 {
            let mut e = chars_of("  \"integer_string_rules\": [\n");
            push_rules_lines(&mut e, rules);
            let tail = chars_of("\n  ]");
            crate::text::append_chars(&mut e, tail.as_slice());
            e
        } else {
            chars_of("  \"integer_string_rules\": []")
        };
        let ghost uev = ue@;
        entries.push(ue);
        assert(rev == ranges_entry(self@.ranges));
        assert(uev == rules_entry(self@.rules));
        assert(texts(entries@) =~= config_entries(self@));
        let sep = chars_of(",\n");
        let body = join_chars(&entries, sep.as_slice());
        let mut out = chars_of("{\n");
        crate::text::append_chars(&mut out, body.as_slice());
        let close = chars_of("\n}");
        crate::text::append_chars(&mut out, close.as_slice());
        assert(out@ =~= config_json(self@));
        Ok(string_of(out.as_slice()))
    }

    /// Reads a configuration object (without overlap checks), reporting a
    /// range with `min` above `max`.
    pub fn read_json_string(json_string: &str) -> (r: JsonRead<ValidationConfiguration>)
        ensures
            config_read_view(r) == config_json_outcome(json_string@),
    {
        let cs = chars_of(json_string);
        read_config_chars(cs.as_slice())
    }

    /// Reads a configuration object (without overlap checks).
    pub fn from_json_string(json_string: &str) -> (r: Result<Self, ValidationError>)
        requires
            !(config_json_outcome(json_string@) is MinAboveMax),
        ensures
            match config_json_outcome(json_string@) {
                JsonOutcome::Read(m) => r matches Ok(x) && x@ == m,
                JsonOutcome::Failed(e) => r matches Err(f) && f@ == e,
                JsonOutcome::MinAboveMax => false,
            },
    {
        match Self::read_json_string(json_string) {
            JsonRead::Read(x) => Ok(x),
            JsonRead::Failed(e) => Err(e),
            JsonRead::MinAboveMax => vstd::pervasive::unreached(),
        }
    }

    /// Reads a configuration object and checks it for overlaps: what
    /// importing a configuration file does with the file's text.
    pub fn import_from_json(json_string: &str) -> (r: Result<Self, ValidationError>)
        requires
            !(config_json_outcome(json_string@) is MinAboveMax),
        ensures
            match config_json_outcome(json_string@) {
                JsonOutcome::Read(m) => match crate::validation::detection_result(m.ranges, m.rules) {
                    Ok(_) => r matches Ok(x) && x@ == m,
                    Err(e) => r matches Err(f) && f@ == e,
                },
                JsonOutcome::Failed(e) => r matches Err(f) && f@ == e,
                JsonOutcome::MinAboveMax => false,
            },
    {
        let configuration = Self::from_json_string(json_string)?;
        configuration.validate_configuration_for_overlaps()?;
        Ok(configuration)
    }
}

} // verus!
