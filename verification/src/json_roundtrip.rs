//! Reading back the written text of a configuration gives the
//! configuration: the proof follows the readers over the written text
//! piece by piece.
use vstd::prelude::*;
use crate::json::{
    after_first_colon, array_content, array_outcome, array_scan, array_step, config_entries, config_fields, config_json,
    config_json_outcome, config_part, lemma_range_json_roundtrip, top_level_parts, unwrap_object, lemma_rule_json_roundtrip, range_json,
    range_json_outcome, range_reader, ranges_entry, rule_json, rule_json_outcome, rule_reader,
    rules_entry, split_scan, split_step, ArrayScan, JsonOutcome, SplitScan,
};
use crate::text::{
    is_whitespace, join, lemma_after_first_separator, lemma_join_first, lemma_trim_after_space,
    lemma_trim_between, lemma_trim_nonempty, lemma_trim_plain, starts_with, strip_both, strip_end,
    strip_start, trim, CharClass,
};
use crate::number::{decimal, is_digit, lemma_decimal_chars};
use crate::validation::{ConfigModel, RangeModel, RuleModel};

verus! {

// =====================================================================
// The top-level splitter
// =====================================================================

/// The splitter run from a state over some characters.
spec fn split_run(st: SplitScan, cs: Seq<char>) -> SplitScan
    decreases cs.len(),
{
    if cs.len() == 0 {
        st
    } else {
        split_step(split_run(st, cs.drop_last()), cs.last())
    }
}

/// The splitter before any character.
spec fn split_start() -> SplitScan {
    SplitScan {
        parts: Seq::<Seq<char>>::empty(),
        current: Seq::<char>::empty(),
        braces: 0,
        brackets: 0,
        in_quotes: false,
        escape: false,
    }
}

proof fn lemma_split_scan_run(cs: Seq<char>)
    ensures
        split_scan(cs) == split_run(split_start(), cs),
    decreases cs.len(),
{
    if cs.len() > 0 {
        lemma_split_scan_run(cs.drop_last());
    }
}

proof fn lemma_split_run_concat(st: SplitScan, a: Seq<char>, b: Seq<char>)
    ensures
        split_run(st, a + b) == split_run(split_run(st, a), b),
    decreases b.len(),
{
    if b.len() == 0 {
        assert(a + b =~= a);
    } else {
        lemma_split_run_concat(st, a, b.drop_last());
        assert((a + b).drop_last() =~= a + b.drop_last());
        assert((a + b).last() == b.last());
    }
}

proof fn lemma_split_run_one(st: SplitScan, c: char)
    ensures
        split_run(st, seq![c]) == split_step(st, c),
{
    assert(seq![c].drop_last() =~= Seq::<char>::empty());
    assert(split_run(st, Seq::<char>::empty()) == st);
    assert(seq![c].last() == c);
}

/// Whether the splitter, in a state like `st`, only collects `c`.
spec fn split_neutral(st: SplitScan, c: char) -> bool {
    &&& !st.escape
    &&& c != '\\'
    &&& c != '"'
    &&& !st.in_quotes ==> (c != '{' && c != '}' && c != '[' && c != ']' && (c != ','
        || st.braces != 0 || st.brackets != 0))
}

/// The splitter collects a run of characters that are neutral to it.
proof fn lemma_split_run_plain(st: SplitScan, t: Seq<char>)
    requires
        forall|i: int| 0 <= i < t.len() ==> split_neutral(st, #[trigger] t[i]),
    ensures
        split_run(st, t) == (SplitScan { current: st.current + t, ..st }),
    decreases t.len(),
{
    if t.len() == 0 {
        assert(st.current + t =~= st.current);
    } else {
        let t0 = t.drop_last();
        assert forall|i: int| 0 <= i < t0.len() implies split_neutral(st, #[trigger] t0[i]) by {
            assert(t0[i] == t[i]);
        }
        lemma_split_run_plain(st, t0);
        assert(t[t.len() - 1] == t.last());
        assert((st.current + t0).push(t.last()) =~= st.current + t);
    }
}

/// A quoted text without quotes or backslashes inside.
spec fn quoted(q: Seq<char>) -> Seq<char> {
    seq!['"'] + q + seq!['"']
}

spec fn plain_quote(q: Seq<char>) -> bool {
    !q.contains('"') && !q.contains('\\')
}

/// Outside quotes, the splitter collects a quoted text and leaves the
/// quotes closed.
proof fn lemma_split_run_quoted(st: SplitScan, q: Seq<char>)
    requires
        !st.escape,
        !st.in_quotes,
        plain_quote(q),
    ensures
        split_run(st, quoted(q)) == (SplitScan { current: st.current + quoted(q), ..st }),
{
    let st1 = SplitScan { current: st.current.push('"'), in_quotes: true, ..st };
    lemma_split_run_one(st, '"');
    assert forall|i: int| 0 <= i < q.len() implies split_neutral(st1, #[trigger] q[i]) by {
        if q[i] == '"' {
            assert(q.contains('"'));
        }
        if q[i] == '\\' {
            assert(q.contains('\\'));
        }
    }
    lemma_split_run_plain(st1, q);
    lemma_split_run_concat(st, seq!['"'], q);
    let st2 = SplitScan { current: st1.current + q, ..st1 };
    lemma_split_run_one(st2, '"');
    assert(split_run(st, seq!['"'] + q) == st2);
    lemma_split_run_concat(st, seq!['"'] + q, seq!['"']);
    assert(seq!['"'] + q + seq!['"'] == quoted(q));
    assert(split_run(st, quoted(q)) == split_step(st2, '"'));
    assert(st2.current.push('"') =~= st.current + quoted(q));
}

/// Characters that are digits, `-`, `:`, spaces or newlines.
spec fn calm(c: char) -> bool {
    is_digit(c) || c == '-' || c == ':' || c == ' ' || c == '\n'
}

/// A run of calm characters, and commas when nested, is collected.
proof fn lemma_split_run_calm(st: SplitScan, t: Seq<char>)
    requires
        !st.escape,
        !st.in_quotes,
        forall|i: int|
            0 <= i < t.len() ==> calm(#[trigger] t[i]) || (t[i] == ',' && (st.braces != 0
                || st.brackets != 0)),
    ensures
        split_run(st, t) == (SplitScan { current: st.current + t, ..st }),
{
    assert forall|i: int| 0 <= i < t.len() implies split_neutral(st, #[trigger] t[i]) by {
        assert(calm(t[i]) || t[i] == ',');
    }
    lemma_split_run_plain(st, t);
}

proof fn lemma_decimal_calm(x: int)
    ensures
        forall|i: int| 0 <= i < decimal(x).len() ==> calm(#[trigger] decimal(x)[i]),
{
    lemma_decimal_chars(x);
}

/// The splitter collects a range object, nested or not, and ends as it
/// began.
proof fn lemma_split_range_object(st: SplitScan, r: RangeModel)
    requires
        !st.escape,
        !st.in_quotes,
        st.braces >= 0,
    ensures
        split_run(st, range_json(r)) == (SplitScan { current: st.current + range_json(r), ..st }),
{
    reveal_strlit("{\"min\": ");
    reveal_strlit(", \"max\": ");
    reveal_strlit("}");
    let d1 = decimal(r.min as int);
    let d2 = decimal(r.max as int);
    lemma_decimal_calm(r.min as int);
    lemma_decimal_calm(r.max as int);
    let kmin = seq!['m', 'i', 'n'];
    let kmax = seq!['m', 'a', 'x'];
    let n1 = seq![':', ' '] + d1 + seq![',', ' '];
    let n2 = seq![':', ' '] + d2;
    assert(range_json(r) =~= seq!['{'] + quoted(kmin) + n1 + quoted(kmax) + n2 + seq!['}']);
    assert(plain_quote(kmin) && plain_quote(kmax));
    // the opening brace
    lemma_split_run_one(st, '{');
    let s1 = SplitScan { current: st.current.push('{'), braces: st.braces + 1, ..st };
    lemma_split_run_quoted(s1, kmin);
    let s2 = SplitScan { current: s1.current + quoted(kmin), ..s1 };
    assert forall|i: int| 0 <= i < n1.len() implies calm(#[trigger] n1[i]) || (n1[i] == ','
        && (s2.braces != 0 || s2.brackets != 0)) by {
        if 2 <= i < n1.len() - 2 {
            assert(n1[i] == d1[i - 2]);
        }
    }
    lemma_split_run_calm(s2, n1);
    let s3 = SplitScan { current: s2.current + n1, ..s2 };
    lemma_split_run_quoted(s3, kmax);
    let s4 = SplitScan { current: s3.current + quoted(kmax), ..s3 };
    assert forall|i: int| 0 <= i < n2.len() implies calm(#[trigger] n2[i]) || (n2[i] == ','
        && (s4.braces != 0 || s4.brackets != 0)) by {
        if 2 <= i {
            assert(n2[i] == d2[i - 2]);
        }
    }
    lemma_split_run_calm(s4, n2);
    let s5 = SplitScan { current: s4.current + n2, ..s4 };
    lemma_split_run_one(s5, '}');
    lemma_split_run_concat(st, seq!['{'], quoted(kmin));
    lemma_split_run_concat(st, seq!['{'] + quoted(kmin), n1);
    lemma_split_run_concat(st, seq!['{'] + quoted(kmin) + n1, quoted(kmax));
    lemma_split_run_concat(st, seq!['{'] + quoted(kmin) + n1 + quoted(kmax), n2);
    lemma_split_run_concat(st, seq!['{'] + quoted(kmin) + n1 + quoted(kmax) + n2, seq!['}']);
    assert(s5.current.push('}') =~= st.current + range_json(r));
}

/// The splitter collects a rule object, nested or not, and ends as it
/// began.
proof fn lemma_split_rule_object(st: SplitScan, u: RuleModel)
    requires
        !st.escape,
        !st.in_quotes,
        st.braces >= 0,
    ensures
        split_run(st, rule_json(u)) == (SplitScan { current: st.current + rule_json(u), ..st }),
{
    reveal_strlit("{\"range\": ");
    reveal_strlit(", \"max_string_length\": ");
    reveal_strlit("}");
    let d3 = decimal(u.max_len as int);
    lemma_decimal_calm(u.max_len as int);
    let krange = seq!['r', 'a', 'n', 'g', 'e'];
    let klen = seq!['m', 'a', 'x', '_', 's', 't', 'r', 'i', 'n', 'g', '_', 'l', 'e', 'n', 'g', 't', 'h'];
    let rj = range_json(u.range);
    let n1 = seq![':', ' '];
    let n2 = seq![',', ' '];
    let n3 = seq![':', ' '] + d3;
    assert(rule_json(u) =~= seq!['{'] + quoted(krange) + n1 + rj + n2 + quoted(klen) + n3 + seq!['}']);
    assert(plain_quote(krange) && plain_quote(klen));
    lemma_split_run_one(st, '{');
    let s1 = SplitScan { current: st.current.push('{'), braces: st.braces + 1, ..st };
    lemma_split_run_quoted(s1, krange);
    let s2 = SplitScan { current: s1.current + quoted(krange), ..s1 };
    assert(forall|i: int| 0 <= i < n1.len() ==> calm(#[trigger] n1[i]));
    lemma_split_run_calm(s2, n1);
    let s3 = SplitScan { current: s2.current + n1, ..s2 };
    lemma_split_range_object(s3, u.range);
    let s4 = SplitScan { current: s3.current + rj, ..s3 };
    assert(forall|i: int|
        0 <= i < n2.len() ==> calm(#[trigger] n2[i]) || (n2[i] == ',' && (s4.braces != 0
            || s4.brackets != 0)));
    lemma_split_run_calm(s4, n2);
    let s5 = SplitScan { current: s4.current + n2, ..s4 };
    lemma_split_run_quoted(s5, klen);
    let s6 = SplitScan { current: s5.current + quoted(klen), ..s5 };
    assert forall|i: int| 0 <= i < n3.len() implies calm(#[trigger] n3[i]) || (n3[i] == ','
        && (s6.braces != 0 || s6.brackets != 0)) by {
        if 2 <= i {
            assert(n3[i] == d3[i - 2]);
        }
    }
    lemma_split_run_calm(s6, n3);
    let s7 = SplitScan { current: s6.current + n3, ..s6 };
    lemma_split_run_one(s7, '}');
    let a1 = seq!['{'];
    let a2 = a1 + quoted(krange);
    let a3 = a2 + n1;
    let a4 = a3 + rj;
    let a5 = a4 + n2;
    let a6 = a5 + quoted(klen);
    let a7 = a6 + n3;
    lemma_split_run_concat(st, a1, quoted(krange));
    lemma_split_run_concat(st, a2, n1);
    lemma_split_run_concat(st, a3, rj);
    lemma_split_run_concat(st, a4, n2);
    lemma_split_run_concat(st, a5, quoted(klen));
    lemma_split_run_concat(st, a6, n3);
    lemma_split_run_concat(st, a7, seq!['}']);
    assert(s7.current.push('}') =~= st.current + rule_json(u));
}

proof fn lemma_indent_calm()
    ensures
        "    "@ == seq![' ', ' ', ' ', ' '],
        ",\n"@ == seq![',', '\n'],
{
    reveal_strlit("    ");
    reveal_strlit(",\n");
}

/// Inside brackets, the splitter collects the written list of ranges.
#[verifier::spinoff_prover]
#[verifier::rlimit(30)]
proof fn lemma_split_range_list(st: SplitScan, rs: Seq<RangeModel>)
    requires
        !st.escape,
        !st.in_quotes,
        st.braces == 0,
        st.brackets != 0,
    ensures
        ({
            let j = join(rs.map_values(|r: RangeModel| "    "@ + range_json(r)), ",\n"@);
            split_run(st, j) == (SplitScan { current: st.current + j, ..st })
        }),
    decreases rs.len(),
{
    lemma_indent_calm();
    let parts = rs.map_values(|r: RangeModel| "    "@ + range_json(r));
    let j = join(parts, ",\n"@);
    if rs.len() == 0 {
        assert(j =~= Seq::<char>::empty());
        assert(st.current + j =~= st.current);
    } else {
        let sep = seq![',', '\n'];
        let last = "    "@ + range_json(rs.last());
        assert(parts.last() == last);
        let (pre, s0) = if rs.len() == 1 {
            assert(j == last);
            (Seq::<char>::empty(), st)
        } else {
            lemma_split_range_list(st, rs.drop_last());
            assert(parts.drop_last() =~= rs.drop_last().map_values(
                |r: RangeModel| "    "@ + range_json(r),
            ));
            let jp = join(parts.drop_last(), ",\n"@);
            let sa = SplitScan { current: st.current + jp, ..st };
            assert(forall|i: int|
                0 <= i < sep.len() ==> calm(#[trigger] sep[i]) || (sep[i] == ',' && (sa.braces
                    != 0 || sa.brackets != 0)));
            lemma_split_run_calm(sa, sep);
            lemma_split_run_concat(st, jp, sep);
            assert(j == jp + sep + last);
            (jp + sep, SplitScan { current: st.current + jp + sep, ..st })
        };
        assert(split_run(st, pre) == s0) by {
            if rs.len() == 1 {
                assert(st.current + pre =~= st.current);
            }
        }
        let w = seq![' ', ' ', ' ', ' '];
        assert(forall|i: int| 0 <= i < w.len() ==> calm(#[trigger] w[i]));
        lemma_split_run_calm(s0, w);
        let s1 = SplitScan { current: s0.current + w, ..s0 };
        lemma_split_range_object(s1, rs.last());
        lemma_split_run_concat(st, pre, w);
        lemma_split_run_concat(st, pre + w, range_json(rs.last()));
        assert(pre + w + range_json(rs.last()) =~= j);
        assert(s1.current + range_json(rs.last()) =~= st.current + j);
    }
}

/// Inside brackets, the splitter collects the written list of rules.
#[verifier::spinoff_prover]
#[verifier::rlimit(30)]
proof fn lemma_split_rule_list(st: SplitScan, us: Seq<RuleModel>)
    requires
        !st.escape,
        !st.in_quotes,
        st.braces == 0,
        st.brackets != 0,
    ensures
        ({
            let j = join(us.map_values(|u: RuleModel| "    "@ + rule_json(u)), ",\n"@);
            split_run(st, j) == (SplitScan { current: st.current + j, ..st })
        }),
    decreases us.len(),
{
    lemma_indent_calm();
    let parts = us.map_values(|u: RuleModel| "    "@ + rule_json(u));
    let j = join(parts, ",\n"@);
    if us.len() == 0 {
        assert(j =~= Seq::<char>::empty());
        assert(st.current + j =~= st.current);
    } else {
        let sep = seq![',', '\n'];
        let last = "    "@ + rule_json(us.last());
        assert(parts.last() == last);
        let (pre, s0) = if us.len() == 1 {
            assert(j == last);
            (Seq::<char>::empty(), st)
        } else {
            lemma_split_rule_list(st, us.drop_last());
            assert(parts.drop_last() =~= us.drop_last().map_values(
                |u: RuleModel| "    "@ + rule_json(u),
            ));
            let jp = join(parts.drop_last(), ",\n"@);
            let sa = SplitScan { current: st.current + jp, ..st };
            assert(forall|i: int|
                0 <= i < sep.len() ==> calm(#[trigger] sep[i]) || (sep[i] == ',' && (sa.braces
                    != 0 || sa.brackets != 0)));
            lemma_split_run_calm(sa, sep);
            lemma_split_run_concat(st, jp, sep);
            assert(j == jp + sep + last);
            (jp + sep, SplitScan { current: st.current + jp + sep, ..st })
        };
        assert(split_run(st, pre) == s0) by {
            if us.len() == 1 {
                assert(st.current + pre =~= st.current);
            }
        }
        let w = seq![' ', ' ', ' ', ' '];
        assert(forall|i: int| 0 <= i < w.len() ==> calm(#[trigger] w[i]));
        lemma_split_run_calm(s0, w);
        let s1 = SplitScan { current: s0.current + w, ..s0 };
        lemma_split_rule_object(s1, us.last());
        lemma_split_run_concat(st, pre, w);
        lemma_split_run_concat(st, pre + w, rule_json(us.last()));
        assert(pre + w + rule_json(us.last()) =~= j);
        assert(s1.current + rule_json(us.last()) =~= st.current + j);
    }
}

/// The splitter outside any quote, brace or bracket.
spec fn at_top(st: SplitScan) -> bool {
    !st.escape && !st.in_quotes && st.braces == 0 && st.brackets == 0
}

/// `  "key": [` and a newline.
spec fn list_head(key: Seq<char>) -> Seq<char> {
    seq![' ', ' '] + quoted(key) + seq![':', ' ', '[', '\n']
}

/// A newline, two spaces and `]`.
spec fn list_tail() -> Seq<char> {
    seq!['\n', ' ', ' ', ']']
}

/// At top level, the splitter collects a bracketed list whose items it
/// collects inside the brackets.
proof fn lemma_split_bracketed(st: SplitScan, key: Seq<char>, j: Seq<char>)
    requires
        at_top(st),
        plain_quote(key),
        split_run(SplitScan { current: st.current + list_head(key), brackets: 1, ..st }, j) == (
        SplitScan { current: st.current + list_head(key) + j, brackets: 1, ..st }),
    ensures
        split_run(st, list_head(key) + j + list_tail()) == (SplitScan {
            current: st.current + (list_head(key) + j + list_tail()),
            ..st
        }),
{
    let w = seq![' ', ' '];
    let n = seq![':', ' '];
    assert(forall|i: int| 0 <= i < w.len() ==> calm(#[trigger] w[i]));
    lemma_split_run_calm(st, w);
    let s1 = SplitScan { current: st.current + w, ..st };
    lemma_split_run_quoted(s1, key);
    let s2 = SplitScan { current: s1.current + quoted(key), ..s1 };
    assert(forall|i: int| 0 <= i < n.len() ==> calm(#[trigger] n[i]));
    lemma_split_run_calm(s2, n);
    let s3 = SplitScan { current: s2.current + n, ..s2 };
    lemma_split_run_one(s3, '[');
    let s4 = SplitScan { current: s3.current.push('['), brackets: 1, ..s3 };
    assert(forall|i: int| 0 <= i < seq!['\n'].len() ==> calm(#[trigger] seq!['\n'][i]));
    lemma_split_run_calm(s4, seq!['\n']);
    let s5 = SplitScan { current: s4.current + seq!['\n'], ..s4 };
    assert(s5.current =~= st.current + list_head(key));
    let s6 = SplitScan { current: st.current + list_head(key) + j, brackets: 1, ..st };
    let t = seq!['\n', ' ', ' '];
    assert(forall|i: int| 0 <= i < t.len() ==> calm(#[trigger] t[i]));
    lemma_split_run_calm(s6, t);
    let s7 = SplitScan { current: s6.current + t, ..s6 };
    lemma_split_run_one(s7, ']');
    lemma_split_run_concat(st, w, quoted(key));
    assert(split_run(st, w + quoted(key)) == s2);
    lemma_split_run_concat(st, w + quoted(key), n);
    assert(split_run(st, w + quoted(key) + n) == s3);
    lemma_split_run_concat(st, w + quoted(key) + n, seq!['[']);
    assert(split_run(st, w + quoted(key) + n + seq!['[']) == s4);
    lemma_split_run_concat(st, w + quoted(key) + n + seq!['['], seq!['\n']);
    assert(split_run(st, w + quoted(key) + n + seq!['['] + seq!['\n']) == s5);
    assert(w + quoted(key) + n + seq!['['] + seq!['\n'] =~= list_head(key));
    let h = SplitScan { current: st.current + list_head(key), brackets: 1, ..st };
    assert(s5 == h);
    assert(split_run(st, list_head(key)) == h);
    lemma_split_run_concat(st, list_head(key), j);
    assert(split_run(st, list_head(key) + j) == s6);
    lemma_split_run_concat(st, list_head(key) + j, t);
    assert(split_run(st, list_head(key) + j + t) == s7);
    lemma_split_run_concat(st, list_head(key) + j + t, seq![']']);
    assert(split_run(st, list_head(key) + j + t + seq![']']) == split_step(s7, ']'));
    assert(list_head(key) + j + t + seq![']'] =~= list_head(key) + j + list_tail());
    assert(s7.current.push(']') =~= st.current + (list_head(key) + j + list_tail()));
}

/// At top level, the splitter collects an empty list entry `  "key": []`.
proof fn lemma_split_empty_list(st: SplitScan, key: Seq<char>)
    requires
        at_top(st),
        plain_quote(key),
    ensures
        ({
            let e = seq![' ', ' '] + quoted(key) + seq![':', ' ', '[', ']'];
            split_run(st, e) == (SplitScan { current: st.current + e, ..st })
        }),
{
    let w = seq![' ', ' '];
    let n = seq![':', ' '];
    assert(forall|i: int| 0 <= i < w.len() ==> calm(#[trigger] w[i]));
    lemma_split_run_calm(st, w);
    let s1 = SplitScan { current: st.current + w, ..st };
    lemma_split_run_quoted(s1, key);
    let s2 = SplitScan { current: s1.current + quoted(key), ..s1 };
    assert(forall|i: int| 0 <= i < n.len() ==> calm(#[trigger] n[i]));
    lemma_split_run_calm(s2, n);
    let s3 = SplitScan { current: s2.current + n, ..s2 };
    lemma_split_run_one(s3, '[');
    let s4 = SplitScan { current: s3.current.push('['), brackets: 1, ..s3 };
    lemma_split_run_one(s4, ']');
    lemma_split_run_concat(st, w, quoted(key));
    lemma_split_run_concat(st, w + quoted(key), n);
    lemma_split_run_concat(st, w + quoted(key) + n, seq!['[']);
    lemma_split_run_concat(st, w + quoted(key) + n + seq!['['], seq![']']);
    assert(w + quoted(key) + n + seq!['['] + seq![']'] =~= seq![' ', ' '] + quoted(key) + seq![
        ':',
        ' ',
        '[',
        ']',
    ]);
    assert(s4.current.push(']') =~= st.current + (seq![' ', ' '] + quoted(key) + seq![':', ' ', '[', ']']));
}

spec fn ranges_key() -> Seq<char> {
    seq!['i', 'n', 't', 'e', 'g', 'e', 'r', '_', 'r', 'a', 'n', 'g', 'e', 's']
}

spec fn rules_key() -> Seq<char> {
    seq![
        'i', 'n', 't', 'e', 'g', 'e', 'r', '_', 's', 't', 'r', 'i', 'n', 'g', '_', 'r', 'u', 'l', 'e', 's',
    ]
}

/// The written `integer_ranges` entry, piece by piece.
proof fn lemma_ranges_entry_shape(rs: Seq<RangeModel>)
    ensures
        rs.len() > 0 ==> ranges_entry(rs) == list_head(ranges_key()) + join(
            rs.map_values(|r: RangeModel| "    "@ + range_json(r)),
            ",\n"@,
        ) + list_tail(),
        rs.len() == 0 ==> ranges_entry(rs) == seq![' ', ' '] + quoted(ranges_key()) + seq![
            ':',
            ' ',
            '[',
            ']',
        ],
{
    reveal_strlit("  \"integer_ranges\": [\n");
    reveal_strlit("\n  ]");
    reveal_strlit("  \"integer_ranges\": []");
    assert("  \"integer_ranges\": [\n"@ =~= list_head(ranges_key()));
    assert("\n  ]"@ =~= list_tail());
    assert("  \"integer_ranges\": []"@ =~= seq![' ', ' '] + quoted(ranges_key()) + seq![
        ':',
        ' ',
        '[',
        ']',
    ]);
}

/// The written `integer_string_rules` entry, piece by piece.
proof fn lemma_rules_entry_shape(us: Seq<RuleModel>)
    ensures
        us.len() > 0 ==> rules_entry(us) == list_head(rules_key()) + join(
            us.map_values(|u: RuleModel| "    "@ + rule_json(u)),
            ",\n"@,
        ) + list_tail(),
        us.len() == 0 ==> rules_entry(us) == seq![' ', ' '] + quoted(rules_key()) + seq![
            ':',
            ' ',
            '[',
            ']',
        ],
{
    reveal_strlit("  \"integer_string_rules\": [\n");
    reveal_strlit("\n  ]");
    reveal_strlit("  \"integer_string_rules\": []");
    assert("  \"integer_string_rules\": [\n"@ =~= list_head(rules_key()));
    assert("\n  ]"@ =~= list_tail());
    assert("  \"integer_string_rules\": []"@ =~= seq![' ', ' '] + quoted(rules_key()) + seq![
        ':',
        ' ',
        '[',
        ']',
    ]);
}

/// At top level, the splitter collects the written `integer_ranges` entry.
proof fn lemma_split_ranges_entry(st: SplitScan, rs: Seq<RangeModel>)
    requires
        at_top(st),
    ensures
        split_run(st, ranges_entry(rs)) == (SplitScan { current: st.current + ranges_entry(rs), ..st }),
{
    lemma_ranges_entry_shape(rs);
    assert(plain_quote(ranges_key()));
    if rs.len() > 0 {
        let inner = SplitScan { current: st.current + list_head(ranges_key()), brackets: 1, ..st };
        lemma_split_range_list(inner, rs);
        lemma_split_bracketed(
            st,
            ranges_key(),
            join(rs.map_values(|r: RangeModel| "    "@ + range_json(r)), ",\n"@),
        );
    } else {
        lemma_split_empty_list(st, ranges_key());
    }
}

/// At top level, the splitter collects the written `integer_string_rules`
/// entry.
proof fn lemma_split_rules_entry(st: SplitScan, us: Seq<RuleModel>)
    requires
        at_top(st),
    ensures
        split_run(st, rules_entry(us)) == (SplitScan { current: st.current + rules_entry(us), ..st }),
{
    lemma_rules_entry_shape(us);
    assert(plain_quote(rules_key()));
    if us.len() > 0 {
        let inner = SplitScan { current: st.current + list_head(rules_key()), brackets: 1, ..st };
        lemma_split_rule_list(inner, us);
        lemma_split_bracketed(
            st,
            rules_key(),
            join(us.map_values(|u: RuleModel| "    "@ + rule_json(u)), ",\n"@),
        );
    } else {
        lemma_split_empty_list(st, rules_key());
    }
}

/// Whether the splitter, at top level, collects `e` and stays at top
/// level.
spec fn top_balanced(e: Seq<char>) -> bool {
    forall|st: SplitScan| at_top(st) ==> #[trigger] split_run(st, e) == (SplitScan { current: st.current + e, ..st })
}

spec fn name_key() -> Seq<char> {
    seq!['n', 'a', 'm', 'e']
}

/// The written `name` entry, piece by piece.
proof fn lemma_name_entry_shape(n: Seq<char>)
    ensures
        "  \"name\": \""@ + n + "\""@ == seq![' ', ' '] + quoted(name_key()) + seq![':', ' '] + quoted(n),
{
    reveal_strlit("  \"name\": \"");
    reveal_strlit("\"");
    assert("  \"name\": \""@ + n + "\""@ =~= seq![' ', ' '] + quoted(name_key()) + seq![':', ' ']
        + quoted(n));
}

proof fn lemma_name_entry_balanced(n: Seq<char>)
    requires
        plain_quote(n),
    ensures
        top_balanced("  \"name\": \""@ + n + "\""@),
{
    lemma_name_entry_shape(n);
    let w = seq![' ', ' '];
    let c = seq![':', ' '];
    let k = name_key();
    assert(plain_quote(k));
    assert forall|st: SplitScan| at_top(st) implies #[trigger] split_run(
        st,
        "  \"name\": \""@ + n + "\""@,
    ) == (SplitScan { current: st.current + ("  \"name\": \""@ + n + "\""@), ..st }) by {
        assert(forall|i: int| 0 <= i < w.len() ==> calm(#[trigger] w[i]));
        lemma_split_run_calm(st, w);
        let s1 = SplitScan { current: st.current + w, ..st };
        lemma_split_run_quoted(s1, k);
        let s2 = SplitScan { current: s1.current + quoted(k), ..s1 };
        assert(forall|i: int| 0 <= i < c.len() ==> calm(#[trigger] c[i]));
        lemma_split_run_calm(s2, c);
        let s3 = SplitScan { current: s2.current + c, ..s2 };
        lemma_split_run_quoted(s3, n);
        lemma_split_run_concat(st, w, quoted(k));
        lemma_split_run_concat(st, w + quoted(k), c);
        lemma_split_run_concat(st, w + quoted(k) + c, quoted(n));
        assert(s3.current + quoted(n) =~= st.current + (w + quoted(k) + c + quoted(n)));
    }
}

proof fn lemma_entries_balanced(rs: Seq<RangeModel>, us: Seq<RuleModel>)
    ensures
        top_balanced(ranges_entry(rs)),
        top_balanced(rules_entry(us)),
{
    assert forall|st: SplitScan| at_top(st) implies #[trigger] split_run(st, ranges_entry(rs)) == (
    SplitScan { current: st.current + ranges_entry(rs), ..st }) by {
        lemma_split_ranges_entry(st, rs);
    }
    assert forall|st: SplitScan| at_top(st) implies #[trigger] split_run(st, rules_entry(us)) == (
    SplitScan { current: st.current + rules_entry(us), ..st }) by {
        lemma_split_rules_entry(st, us);
    }
}

/// The splitter over a newline and entries joined by `,` and newlines:
/// every entry but the last becomes a part, trimmed; the last is still
/// being collected.
proof fn lemma_split_entries(es: Seq<Seq<char>>)
    requires
        es.len() >= 1,
        forall|i: int| 0 <= i < es.len() ==> top_balanced(#[trigger] es[i]),
    ensures
        split_run(split_start(), seq!['\n'] + join(es, ",\n"@)) == (SplitScan {
            parts: es.drop_last().map_values(|e: Seq<char>| crate::text::trim(seq!['\n'] + e)),
            current: seq!['\n'] + es.last(),
            ..split_start()
        }),
    decreases es.len(),
{
    lemma_indent_calm();
    let st0 = split_start();
    assert(forall|i: int| 0 <= i < seq!['\n'].len() ==> calm(#[trigger] seq!['\n'][i]));
    if es.len() == 1 {
        lemma_split_run_calm(st0, seq!['\n']);
        let s1 = SplitScan { current: seq!['\n'], ..st0 };
        assert(st0.current + seq!['\n'] =~= seq!['\n']);
        assert(top_balanced(es[0]));
        assert(at_top(s1));
        assert(split_run(s1, es[0]) == (SplitScan { current: s1.current + es[0], ..s1 }));
        lemma_split_run_concat(st0, seq!['\n'], es[0]);
        assert(join(es, ",\n"@) == es[0]);
        assert(es.drop_last().map_values(|e: Seq<char>| crate::text::trim(seq!['\n'] + e))
            =~= Seq::<Seq<char>>::empty());
    } else {
        let pre = es.drop_last();
        lemma_split_entries(pre);
        let sa = SplitScan {
            parts: pre.drop_last().map_values(|e: Seq<char>| crate::text::trim(seq!['\n'] + e)),
            current: seq!['\n'] + pre.last(),
            ..st0
        };
        let jp = join(pre, ",\n"@);
        assert(join(es, ",\n"@) == jp + seq![',', '\n'] + es.last());
        // the comma closes a part
        lemma_split_run_one(sa, ',');
        let sb = SplitScan {
            parts: sa.parts.push(crate::text::trim(sa.current)),
            current: Seq::<char>::empty(),
            ..sa
        };
        assert(sb.parts =~= es.drop_last().map_values(|e: Seq<char>| crate::text::trim(seq!['\n'] + e)));
        lemma_split_run_calm(sb, seq!['\n']);
        let sc = SplitScan { current: seq!['\n'], ..sb };
        assert(sb.current + seq!['\n'] =~= seq!['\n']);
        assert(top_balanced(es[es.len() - 1]));
        assert(at_top(sc));
        assert(split_run(sc, es.last()) == (SplitScan { current: sc.current + es.last(), ..sc }));
        lemma_split_run_concat(st0, seq!['\n'] + jp, seq![',']);
        lemma_split_run_concat(st0, seq!['\n'] + jp + seq![','], seq!['\n']);
        lemma_split_run_concat(st0, seq!['\n'] + jp + seq![','] + seq!['\n'], es.last());
        assert(seq!['\n'] + jp + seq![','] + seq!['\n'] + es.last() =~= seq!['\n'] + join(es, ",\n"@));
    }
}

// =====================================================================
// The array reader
// =====================================================================

/// The array reader run from a state over some characters.
spec fn array_run<M>(
    st: JsonOutcome<(Seq<M>, ArrayScan)>,
    cs: Seq<char>,
    read: spec_fn(Seq<char>) -> JsonOutcome<M>,
) -> JsonOutcome<(Seq<M>, ArrayScan)>
    decreases cs.len(),
{
    if cs.len() == 0 {
        st
    } else {
        array_step(array_run(st, cs.drop_last(), read), cs.last(), read)
    }
}

/// The array reader with the items read so far, the text being
/// collected, the depth and whether a quote is open.
spec fn array_at<M>(items: Seq<M>, current: Seq<char>, depth: int, in_quotes: bool) -> JsonOutcome<
    (Seq<M>, ArrayScan),
> {
    JsonOutcome::Read((items, ArrayScan { current, depth, in_quotes }))
}

proof fn lemma_array_scan_run<M>(cs: Seq<char>, read: spec_fn(Seq<char>) -> JsonOutcome<M>)
    ensures
        array_scan(cs, read) == array_run(
            array_at(Seq::<M>::empty(), Seq::<char>::empty(), 0, false),
            cs,
            read,
        ),
    decreases cs.len(),
{
    if cs.len() > 0 {
        lemma_array_scan_run(cs.drop_last(), read);
    }
}

proof fn lemma_array_run_concat<M>(
    st: JsonOutcome<(Seq<M>, ArrayScan)>,
    a: Seq<char>,
    b: Seq<char>,
    read: spec_fn(Seq<char>) -> JsonOutcome<M>,
)
    ensures
        array_run(st, a + b, read) == array_run(array_run(st, a, read), b, read),
    decreases b.len(),
{
    if b.len() == 0 {
        assert(a + b =~= a);
    } else {
        lemma_array_run_concat(st, a, b.drop_last(), read);
        assert((a + b).drop_last() =~= a + b.drop_last());
        assert((a + b).last() == b.last());
    }
}

proof fn lemma_array_run_one<M>(
    st: JsonOutcome<(Seq<M>, ArrayScan)>,
    c: char,
    read: spec_fn(Seq<char>) -> JsonOutcome<M>,
)
    ensures
        array_run(st, seq![c], read) == array_step(st, c, read),
{
    assert(seq![c].drop_last() =~= Seq::<char>::empty());
    assert(array_run(st, Seq::<char>::empty(), read) == st);
    assert(seq![c].last() == c);
}

/// Outside quotes, the array reader collects calm characters, and commas
/// when nested.
proof fn lemma_array_run_calm<M>(
    items: Seq<M>,
    current: Seq<char>,
    depth: int,
    t: Seq<char>,
    read: spec_fn(Seq<char>) -> JsonOutcome<M>,
)
    requires
        forall|i: int| 0 <= i < t.len() ==> calm(#[trigger] t[i]) || (t[i] == ',' && depth != 0),
    ensures
        array_run(array_at(items, current, depth, false), t, read) == array_at(
            items,
            current + t,
            depth,
            false,
        ),
    decreases t.len(),
{
    if t.len() == 0 {
        assert(current + t =~= current);
    } else {
        let t0 = t.drop_last();
        assert forall|i: int| 0 <= i < t0.len() implies calm(#[trigger] t0[i]) || (t0[i] == ','
            && depth != 0) by {
            assert(t0[i] == t[i]);
        }
        lemma_array_run_calm(items, current, depth, t0, read);
        assert(t[t.len() - 1] == t.last());
        assert(calm(t.last()) || (t.last() == ',' && depth != 0));
        assert((current + t0).push(t.last()) =~= current + t);
    }
}

/// Outside quotes, the array reader collects a quoted text.
proof fn lemma_array_run_quoted<M>(
    items: Seq<M>,
    current: Seq<char>,
    depth: int,
    q: Seq<char>,
    read: spec_fn(Seq<char>) -> JsonOutcome<M>,
)
    requires
        !q.contains('"'),
    ensures
        array_run(array_at(items, current, depth, false), quoted(q), read) == array_at(
            items,
            current + quoted(q),
            depth,
            false,
        ),
{
    let st = array_at(items, current, depth, false);
    lemma_array_run_one(st, '"', read);
    let st1 = array_at(items, current.push('"'), depth, true);
    assert(array_run(st, seq!['"'], read) == st1);
    lemma_array_run_in_quotes(items, current.push('"'), depth, q, read);
    lemma_array_run_concat(st, seq!['"'], q, read);
    let st2 = array_at(items, current.push('"') + q, depth, true);
    lemma_array_run_one(st2, '"', read);
    lemma_array_run_concat(st, seq!['"'] + q, seq!['"'], read);
    assert(seq!['"'] + q + seq!['"'] == quoted(q));
    assert((current.push('"') + q).push('"') =~= current + quoted(q));
}

/// Inside quotes, the array reader collects every character but a quote.
proof fn lemma_array_run_in_quotes<M>(
    items: Seq<M>,
    current: Seq<char>,
    depth: int,
    q: Seq<char>,
    read: spec_fn(Seq<char>) -> JsonOutcome<M>,
)
    requires
        !q.contains('"'),
    ensures
        array_run(array_at(items, current, depth, true), q, read) == array_at(
            items,
            current + q,
            depth,
            true,
        ),
    decreases q.len(),
{
    if q.len() == 0 {
        assert(current + q =~= current);
    } else {
        let q0 = q.drop_last();
        assert(!q0.contains('"')) by {
            if q0.contains('"') {
                let k = choose|k: int| 0 <= k < q0.len() && q0[k] == '"';
                assert(q[k] == '"');
            }
        }
        lemma_array_run_in_quotes(items, current, depth, q0, read);
        assert(q[q.len() - 1] == q.last());
        assert(q.last() != '"');
        assert((current + q0).push(q.last()) =~= current + q);
    }
}

/// The array reader collects a range object up to its closing brace, one
/// level deeper than it began.
proof fn lemma_array_range_open<M>(
    items: Seq<M>,
    current: Seq<char>,
    depth: int,
    r: RangeModel,
    read: spec_fn(Seq<char>) -> JsonOutcome<M>,
)
    requires
        depth >= 0,
    ensures
        range_json(r).len() > 0,
        range_json(r).last() == '}',
        array_run(array_at(items, current, depth, false), range_json(r).drop_last(), read)
            == array_at(items, current + range_json(r).drop_last(), depth + 1, false),
{
    reveal_strlit("{\"min\": ");
    reveal_strlit(", \"max\": ");
    reveal_strlit("}");
    let d1 = decimal(r.min as int);
    let d2 = decimal(r.max as int);
    lemma_decimal_calm(r.min as int);
    lemma_decimal_calm(r.max as int);
    let kmin = seq!['m', 'i', 'n'];
    let kmax = seq!['m', 'a', 'x'];
    let n1 = seq![':', ' '] + d1 + seq![',', ' '];
    let n2 = seq![':', ' '] + d2;
    assert(range_json(r) =~= seq!['{'] + quoted(kmin) + n1 + quoted(kmax) + n2 + seq!['}']);
    assert(range_json(r).drop_last() =~= seq!['{'] + quoted(kmin) + n1 + quoted(kmax) + n2);
    assert(!kmin.contains('"') && !kmax.contains('"'));
    let st = array_at(items, current, depth, false);
    lemma_array_run_one(st, '{', read);
    let c1 = current.push('{');
    lemma_array_run_quoted(items, c1, depth + 1, kmin, read);
    let c2 = c1 + quoted(kmin);
    assert forall|i: int| 0 <= i < n1.len() implies calm(#[trigger] n1[i]) || (n1[i] == ','
        && depth + 1 != 0) by {
        if 2 <= i < n1.len() - 2 {
            assert(n1[i] == d1[i - 2]);
        }
    }
    lemma_array_run_calm(items, c2, depth + 1, n1, read);
    let c3 = c2 + n1;
    lemma_array_run_quoted(items, c3, depth + 1, kmax, read);
    let c4 = c3 + quoted(kmax);
    assert forall|i: int| 0 <= i < n2.len() implies calm(#[trigger] n2[i]) || (n2[i] == ','
        && depth + 1 != 0) by {
        if 2 <= i {
            assert(n2[i] == d2[i - 2]);
        }
    }
    lemma_array_run_calm(items, c4, depth + 1, n2, read);
    let a1 = seq!['{'];
    let a2 = a1 + quoted(kmin);
    let a3 = a2 + n1;
    let a4 = a3 + quoted(kmax);
    lemma_array_run_concat(st, a1, quoted(kmin), read);
    lemma_array_run_concat(st, a2, n1, read);
    lemma_array_run_concat(st, a3, quoted(kmax), read);
    lemma_array_run_concat(st, a4, n2, read);
    assert(c4 + n2 =~= current + range_json(r).drop_last());
}

/// Within an object, the array reader collects a range object and ends
/// at the depth it began.
proof fn lemma_array_range_nested<M>(
    items: Seq<M>,
    current: Seq<char>,
    depth: int,
    r: RangeModel,
    read: spec_fn(Seq<char>) -> JsonOutcome<M>,
)
    requires
        depth >= 1,
    ensures
        array_run(array_at(items, current, depth, false), range_json(r), read) == array_at(
            items,
            current + range_json(r),
            depth,
            false,
        ),
{
    lemma_array_range_open(items, current, depth, r, read);
    let rj = range_json(r);
    let c = current + rj.drop_last();
    lemma_array_run_one(array_at(items, c, depth + 1, false), '}', read);
    lemma_array_run_concat(array_at(items, current, depth, false), rj.drop_last(), seq!['}'], read);
    assert(rj.drop_last() + seq!['}'] =~= rj);
    assert(c.push('}') =~= current + rj);
}

/// Whether a text is all whitespace.
spec fn blank(w: Seq<char>) -> bool {
    forall|i: int| 0 <= i < w.len() ==> is_whitespace(#[trigger] w[i])
}

/// After whitespace, at top level, the array reader reads a range object
/// into an item.
proof fn lemma_array_range_item(items: Seq<RangeModel>, w: Seq<char>, r: RangeModel)
    requires
        blank(w),
        r.min <= r.max,
    ensures
        array_run(array_at(items, w, 0, false), range_json(r), range_reader()) == array_at(
            items.push(r),
            Seq::<char>::empty(),
            0,
            false,
        ),
{
    lemma_array_range_open(items, w, 0, r, range_reader());
    let rj = range_json(r);
    let c = w + rj.drop_last();
    lemma_array_run_one(array_at(items, c, 1, false), '}', range_reader());
    lemma_array_run_concat(array_at(items, w, 0, false), rj.drop_last(), seq!['}'], range_reader());
    assert(rj.drop_last() + seq!['}'] =~= rj);
    assert(c.push('}') =~= w + rj + Seq::<char>::empty());
    assert(rj[0] == '{') by {
        reveal_strlit("{\"min\": ");
    }
    assert(rj[rj.len() - 1] == '}');
    lemma_trim_between(w, rj, Seq::<char>::empty());
    lemma_range_json_roundtrip(r);
    assert(range_reader()(trim(c.push('}'))) == JsonOutcome::Read(r));
}

/// After whitespace, at top level, the array reader reads a rule object
/// into an item.
proof fn lemma_array_rule_item(items: Seq<RuleModel>, w: Seq<char>, u: RuleModel)
    requires
        blank(w),
        u.range.min <= u.range.max,
    ensures
        array_run(array_at(items, w, 0, false), rule_json(u), rule_reader()) == array_at(
            items.push(u),
            Seq::<char>::empty(),
            0,
            false,
        ),
{
    reveal_strlit("{\"range\": ");
    reveal_strlit(", \"max_string_length\": ");
    reveal_strlit("}");
    let read = rule_reader();
    let d3 = decimal(u.max_len as int);
    lemma_decimal_calm(u.max_len as int);
    let krange = seq!['r', 'a', 'n', 'g', 'e'];
    let klen = seq!['m', 'a', 'x', '_', 's', 't', 'r', 'i', 'n', 'g', '_', 'l', 'e', 'n', 'g', 't', 'h'];
    let rj = range_json(u.range);
    let n1 = seq![':', ' '];
    let n2 = seq![',', ' '];
    let n3 = seq![':', ' '] + d3;
    let uj = rule_json(u);
    assert(uj =~= seq!['{'] + quoted(krange) + n1 + rj + n2 + quoted(klen) + n3 + seq!['}']);
    assert(!krange.contains('"') && !klen.contains('"'));
    let st = array_at(items, w, 0, false);
    lemma_array_run_one(st, '{', read);
    let c1 = w.push('{');
    lemma_array_run_quoted(items, c1, 1, krange, read);
    let c2 = c1 + quoted(krange);
    assert(forall|i: int| 0 <= i < n1.len() ==> calm(#[trigger] n1[i]));
    lemma_array_run_calm(items, c2, 1, n1, read);
    let c3 = c2 + n1;
    lemma_array_range_nested(items, c3, 1, u.range, read);
    let c4 = c3 + rj;
    assert(forall|i: int| 0 <= i < n2.len() ==> calm(#[trigger] n2[i]) || (n2[i] == ',' && 1 != 0));
    lemma_array_run_calm(items, c4, 1, n2, read);
    let c5 = c4 + n2;
    lemma_array_run_quoted(items, c5, 1, klen, read);
    let c6 = c5 + quoted(klen);
    assert forall|i: int| 0 <= i < n3.len() implies calm(#[trigger] n3[i]) || (n3[i] == ','
        && 1 != 0) by {
        if 2 <= i {
            assert(n3[i] == d3[i - 2]);
        }
    }
    lemma_array_run_calm(items, c6, 1, n3, read);
    let c7 = c6 + n3;
    lemma_array_run_one(array_at(items, c7, 1, false), '}', read);
    let a1 = seq!['{'];
    let a2 = a1 + quoted(krange);
    let a3 = a2 + n1;
    let a4 = a3 + rj;
    let a5 = a4 + n2;
    let a6 = a5 + quoted(klen);
    let a7 = a6 + n3;
    lemma_array_run_concat(st, a1, quoted(krange), read);
    lemma_array_run_concat(st, a2, n1, read);
    lemma_array_run_concat(st, a3, rj, read);
    lemma_array_run_concat(st, a4, n2, read);
    lemma_array_run_concat(st, a5, quoted(klen), read);
    lemma_array_run_concat(st, a6, n3, read);
    lemma_array_run_concat(st, a7, seq!['}'], read);
    assert(c7.push('}') =~= w + uj + Seq::<char>::empty());
    assert(uj[0] == '{');
    assert(uj[uj.len() - 1] == '}');
    lemma_trim_between(w, uj, Seq::<char>::empty());
    lemma_rule_json_roundtrip(u);
    assert(read(trim(c7.push('}'))) == JsonOutcome::Read(u));
}

/// The array reader reads the written list of ranges, after a newline,
/// into the ranges.
#[verifier::spinoff_prover]
proof fn lemma_array_range_list(rs: Seq<RangeModel>)
    requires
        rs.len() >= 1,
        forall|i: int| 0 <= i < rs.len() ==> (#[trigger] rs[i]).min <= rs[i].max,
    ensures
        array_run(
            array_at(Seq::<RangeModel>::empty(), Seq::<char>::empty(), 0, false),
            seq!['\n'] + join(rs.map_values(|r: RangeModel| "    "@ + range_json(r)), ",\n"@),
            range_reader(),
        ) == array_at(rs, Seq::<char>::empty(), 0, false),
    decreases rs.len(),
{
    lemma_indent_calm();
    let read = range_reader();
    let st0 = array_at(Seq::<RangeModel>::empty(), Seq::<char>::empty(), 0, false);
    let parts = rs.map_values(|r: RangeModel| "    "@ + range_json(r));
    let j = join(parts, ",\n"@);
    let last = rs.last();
    assert(rs[rs.len() - 1] == last);
    assert(parts.last() == seq![' ', ' ', ' ', ' '] + range_json(last));
    let w = seq!['\n', ' ', ' ', ' ', ' '];
    assert(forall|i: int| 0 <= i < w.len() ==> calm(#[trigger] w[i]) && is_whitespace(w[i]));
    if rs.len() == 1 {
        assert(j == parts[0]);
        lemma_array_run_calm(Seq::<RangeModel>::empty(), Seq::<char>::empty(), 0, w, read);
        assert(Seq::<char>::empty() + w =~= w);
        lemma_array_range_item(Seq::<RangeModel>::empty(), w, last);
        lemma_array_run_concat(st0, w, range_json(last), read);
        assert(seq!['\n'] + j =~= w + range_json(last));
        assert(Seq::<RangeModel>::empty().push(last) =~= rs);
    } else {
        let pre = rs.drop_last();
        assert forall|i: int| 0 <= i < pre.len() implies (#[trigger] pre[i]).min <= pre[i].max by {
            assert(pre[i] == rs[i]);
        }
        lemma_array_range_list(pre);
        assert(parts.drop_last() =~= pre.map_values(|r: RangeModel| "    "@ + range_json(r)));
        let jp = join(parts.drop_last(), ",\n"@);
        assert(j == jp + seq![',', '\n'] + parts.last());
        let sa = array_at(pre, Seq::<char>::empty(), 0, false);
        lemma_array_run_one(sa, ',', read);
        assert(array_run(sa, seq![','], read) == sa);
        let w2 = seq!['\n', ' ', ' ', ' ', ' '];
        lemma_array_run_calm(pre, Seq::<char>::empty(), 0, w2, read);
        assert(Seq::<char>::empty() + w2 =~= w2);
        lemma_array_range_item(pre, w2, last);
        lemma_array_run_concat(st0, seq!['\n'] + jp, seq![','], read);
        lemma_array_run_concat(st0, seq!['\n'] + jp + seq![','], w2, read);
        lemma_array_run_concat(st0, seq!['\n'] + jp + seq![','] + w2, range_json(last), read);
        assert(seq!['\n'] + jp + seq![','] + w2 + range_json(last) =~= seq!['\n'] + j);
        assert(pre.push(last) =~= rs);
    }
}

/// The array reader reads the written list of rules, after a newline,
/// into the rules.
#[verifier::spinoff_prover]
#[verifier::rlimit(50)]
proof fn lemma_array_rule_list(us: Seq<RuleModel>)
    requires
        us.len() >= 1,
        forall|i: int| 0 <= i < us.len() ==> (#[trigger] us[i]).range.min <= us[i].range.max,
    ensures
        array_run(
            array_at(Seq::<RuleModel>::empty(), Seq::<char>::empty(), 0, false),
            seq!['\n'] + join(us.map_values(|u: RuleModel| "    "@ + rule_json(u)), ",\n"@),
            rule_reader(),
        ) == array_at(us, Seq::<char>::empty(), 0, false),
    decreases us.len(),
{
    lemma_indent_calm();
    let read = rule_reader();
    let st0 = array_at(Seq::<RuleModel>::empty(), Seq::<char>::empty(), 0, false);
    let parts = us.map_values(|u: RuleModel| "    "@ + rule_json(u));
    let j = join(parts, ",\n"@);
    let last = us.last();
    assert(us[us.len() - 1] == last);
    assert(parts.last() == seq![' ', ' ', ' ', ' '] + rule_json(last));
    let w = seq!['\n', ' ', ' ', ' ', ' '];
    assert(forall|i: int| 0 <= i < w.len() ==> calm(#[trigger] w[i]) && is_whitespace(w[i]));
    if us.len() == 1 {
        assert(j == parts[0]);
        lemma_array_run_calm(Seq::<RuleModel>::empty(), Seq::<char>::empty(), 0, w, read);
        assert(Seq::<char>::empty() + w =~= w);
        lemma_array_rule_item(Seq::<RuleModel>::empty(), w, last);
        lemma_array_run_concat(st0, w, rule_json(last), read);
        assert(seq!['\n'] + j =~= w + rule_json(last));
        assert(Seq::<RuleModel>::empty().push(last) =~= us);
    } else {
        let pre = us.drop_last();
        assert forall|i: int| 0 <= i < pre.len() implies (#[trigger] pre[i]).range.min
            <= pre[i].range.max by {
            assert(pre[i] == us[i]);
        }
        lemma_array_rule_list(pre);
        assert(parts.drop_last() =~= pre.map_values(|u: RuleModel| "    "@ + rule_json(u)));
        let jp = join(parts.drop_last(), ",\n"@);
        assert(j == jp + seq![',', '\n'] + parts.last());
        let sa = array_at(pre, Seq::<char>::empty(), 0, false);
        lemma_array_run_one(sa, ',', read);
        assert(array_run(sa, seq![','], read) == sa);
        let w2 = seq!['\n', ' ', ' ', ' ', ' '];
        lemma_array_run_calm(pre, Seq::<char>::empty(), 0, w2, read);
        assert(Seq::<char>::empty() + w2 =~= w2);
        lemma_array_rule_item(pre, w2, last);
        lemma_array_run_concat(st0, seq!['\n'] + jp, seq![','], read);
        lemma_array_run_concat(st0, seq!['\n'] + jp + seq![','], w2, read);
        lemma_array_run_concat(st0, seq!['\n'] + jp + seq![','] + w2, rule_json(last), read);
        assert(seq!['\n'] + jp + seq![','] + w2 + rule_json(last) =~= seq!['\n'] + j);
        assert(pre.push(last) =~= us);
    }
}

// =====================================================================
// Reading the parts
// =====================================================================

/// The trimmed `name` part: `"name": "<n>"`.
spec fn name_part(n: Seq<char>) -> Seq<char> {
    quoted(name_key()) + seq![':', ' '] + quoted(n)
}

/// The trimmed part of a list entry: `"key": [` ... `]`.
spec fn list_part(key: Seq<char>, j: Seq<char>, empty: bool) -> Seq<char> {
    quoted(key) + seq![':', ' '] + if empty {
        seq!['[', ']']
    } else {
        seq!['[', '\n'] + j + list_tail()
    }
}

proof fn lemma_list_part_ends(key: Seq<char>, j: Seq<char>, empty: bool)
    ensures
        list_part(key, j, empty).len() > 0,
        list_part(key, j, empty)[0] == '"',
        list_part(key, j, empty).last() == ']',
{
    let p = list_part(key, j, empty);
    assert(p[0] == '"');
    if empty {
        assert(p.last() == ']');
    } else {
        assert(p.last() == list_tail().last());
    }
}

/// The content that the reader finds between the brackets of a list part.
proof fn lemma_list_part_content(key: Seq<char>, j: Seq<char>, empty: bool)
    requires
        !key.contains(':'),
        !key.contains('"'),
    ensures
        array_content(list_part(key, j, empty)) == if empty {
            Seq::<char>::empty()
        } else {
            seq!['\n'] + j + seq!['\n', ' ', ' ']
        },
{
    reveal_strlit(":");
    assert(":"@ =~= seq![':']);
    let p = list_part(key, j, empty);
    let tail = if empty {
        seq!['[', ']']
    } else {
        seq!['[', '\n'] + j + list_tail()
    };
    let b = seq![' '] + tail;
    assert(!quoted(key).contains(':')) by {
        if quoted(key).contains(':') {
            let k = choose|k: int| 0 <= k < quoted(key).len() && quoted(key)[k] == ':';
            assert(key[k - 1] == ':');
        }
    }
    assert(p =~= quoted(key) + seq![':'] + b);
    lemma_after_first_separator(quoted(key), b, ':');
    assert(tail[0] == '[');
    assert(tail.last() == ']') by {
        if !empty {
            assert(tail.last() == list_tail().last());
        }
    }
    assert(forall|i: int| 0 <= i < seq![' '].len() ==> is_whitespace(#[trigger] seq![' '][i]));
    assert(forall|i: int| 0 <= i < Seq::<char>::empty().len() ==> is_whitespace(
        #[trigger] Seq::<char>::empty()[i],
    ));
    lemma_trim_between(seq![' '], tail, Seq::<char>::empty());
    assert(seq![' '] + tail + Seq::<char>::empty() =~= b);
    assert(trim(b) == tail);
    let t1 = tail.drop_first();
    assert(strip_start(t1, CharClass::Only('[')) == t1) by {
        assert(t1[0] == tail[1]);
    }
    assert(strip_start(tail, CharClass::Only('[')) == t1);
    if empty {
        assert(t1 =~= seq![']']);
        assert(t1.drop_last() =~= Seq::<char>::empty());
        assert(strip_end(Seq::<char>::empty(), CharClass::Only(']')) == Seq::<char>::empty());
        assert(t1.last() == ']');
        assert(strip_end(t1, CharClass::Only(']')) == Seq::<char>::empty());
    } else {
        let a = seq!['\n'] + j + seq!['\n', ' ', ' '];
        assert(t1 =~= a + seq![']']);
        assert((a + seq![']']).drop_last() =~= a);
        assert(a.last() == ' ');
        assert(strip_end(a, CharClass::Only(']')) == a);
        assert(strip_end(t1, CharClass::Only(']')) == a);
    }
}

/// Reading the `name` part names the configuration.
proof fn lemma_read_name_part(f: ConfigModel, n: Seq<char>)
    requires
        plain_quote(n),
    ensures
        config_part(JsonOutcome::Read(f), name_part(n)) == JsonOutcome::Read(
            ConfigModel { name: Some(n), ..f },
        ),
{
    reveal_strlit("\"name\":");
    let p = name_part(n);
    assert(p[0] == '"');
    assert(p.last() == '"');
    lemma_trim_plain(p);
    assert(p.subrange(0, 7) =~= "\"name\":"@);
    assert(starts_with(trim(p), "\"name\":"@));
    let k = quoted(name_key());
    let b = seq![' '] + quoted(n);
    assert(p =~= k + seq![':'] + b);
    assert(!k.contains(':'));
    reveal_strlit(":");
    assert(":"@ =~= seq![':']);
    lemma_after_first_separator(k, b, ':');
    assert(after_first_colon(p) == b);
    let q = quoted(n);
    assert(q[0] == '"');
    assert(q.last() == '"');
    lemma_trim_after_space(q);
    // the quotes come off
    assert(q.drop_first() =~= n + seq!['"']);
    if n.len() == 0 {
        assert(n + seq!['"'] =~= seq!['"']);
        assert(seq!['"'].drop_first() =~= Seq::<char>::empty());
        assert(strip_start(Seq::<char>::empty(), CharClass::Only('"')) == Seq::<char>::empty());
        assert(strip_end(Seq::<char>::empty(), CharClass::Only('"')) == Seq::<char>::empty());
        assert(seq!['"'][0] == '"');
        assert(strip_start(seq!['"'], CharClass::Only('"')) == Seq::<char>::empty());
        assert(strip_both(q, CharClass::Only('"')) =~= n);
    } else {
        assert(n[0] != '"') by {
            if n[0] == '"' {
                assert(n.contains('"'));
            }
        }
        assert((n + seq!['"'])[0] == n[0]);
        assert(strip_start(n + seq!['"'], CharClass::Only('"')) == n + seq!['"']);
        assert((n + seq!['"']).drop_last() =~= n);
        assert(n.last() != '"') by {
            if n.last() == '"' {
                assert(n[n.len() - 1] == '"');
            }
        }
        assert(strip_end(n, CharClass::Only('"')) == n);
        assert(strip_both(q, CharClass::Only('"')) == n);
    }
}

/// The written list of ranges.
spec fn range_list(rs: Seq<RangeModel>) -> Seq<char> {
    join(rs.map_values(|r: RangeModel| "    "@ + range_json(r)), ",\n"@)
}

/// The written list of rules.
spec fn rule_list(us: Seq<RuleModel>) -> Seq<char> {
    join(us.map_values(|u: RuleModel| "    "@ + rule_json(u)), ",\n"@)
}

/// Reading the `integer_ranges` part gives the ranges.
#[verifier::spinoff_prover]
proof fn lemma_read_ranges_part(f: ConfigModel, rs: Seq<RangeModel>)
    requires
        f.ranges == Seq::<RangeModel>::empty(),
        forall|i: int| 0 <= i < rs.len() ==> (#[trigger] rs[i]).min <= rs[i].max,
    ensures
        config_part(JsonOutcome::Read(f), list_part(ranges_key(), range_list(rs), rs.len() == 0))
            == JsonOutcome::Read(ConfigModel { ranges: rs, ..f }),
{
    reveal_strlit("\"name\":");
    reveal_strlit("\"integer_ranges\":");
    let key = ranges_key();
    let j = range_list(rs);
    let p = list_part(key, j, rs.len() == 0);
    lemma_list_part_ends(key, j, rs.len() == 0);
    lemma_trim_plain(p);
    assert(p[1] == 'i');
    assert(!starts_with(trim(p), "\"name\":"@)) by {
        assert("\"name\":"@[1] == 'n');
        if starts_with(p, "\"name\":"@) {
            assert(p.subrange(0, 7)[1] == p[1]);
        }
    }
    assert(p.subrange(0, 17) =~= "\"integer_ranges\":"@);
    assert(starts_with(trim(p), "\"integer_ranges\":"@));
    assert(!key.contains(':') && !key.contains('"'));
    lemma_list_part_content(key, j, rs.len() == 0);
    if rs.len() == 0 {
        assert(trim(Seq::<char>::empty()) =~= Seq::<char>::empty()) by {
            assert(strip_start(Seq::<char>::empty(), CharClass::Whitespace) == Seq::<char>::empty());
            assert(strip_end(Seq::<char>::empty(), CharClass::Whitespace) == Seq::<char>::empty());
        }
        assert(f.ranges =~= rs);
    } else {
        let a = seq!['\n'] + j + seq!['\n', ' ', ' '];
        let parts = rs.map_values(|r: RangeModel| "    "@ + range_json(r));
        lemma_indent_calm();
        lemma_join_first(parts, ",\n"@);
        assert(parts[0] == seq![' ', ' ', ' ', ' '] + range_json(rs[0]));
        assert(range_json(rs[0])[0] == '{') by {
            reveal_strlit("{\"min\": ");
        }
        assert(j[4] == parts[0][4]);
        assert(a[5] == '{');
        lemma_trim_nonempty(a, 5);
        let read = range_reader();
        lemma_array_scan_run(a, read);
        lemma_array_range_list(rs);
        let st0 = array_at(Seq::<RangeModel>::empty(), Seq::<char>::empty(), 0, false);
        let tl = seq!['\n', ' ', ' '];
        lemma_array_run_concat(st0, seq!['\n'] + j, tl, read);
        assert(forall|i: int| 0 <= i < tl.len() ==> calm(#[trigger] tl[i]));
        lemma_array_run_calm(rs, Seq::<char>::empty(), 0, tl, read);
        assert(array_outcome(a, read) == JsonOutcome::Read(rs));
    }
}

/// Reading the `integer_string_rules` part gives the rules.
#[verifier::spinoff_prover]
proof fn lemma_read_rules_part(f: ConfigModel, us: Seq<RuleModel>)
    requires
        f.rules == Seq::<RuleModel>::empty(),
        forall|i: int| 0 <= i < us.len() ==> (#[trigger] us[i]).range.min <= us[i].range.max,
    ensures
        config_part(JsonOutcome::Read(f), list_part(rules_key(), rule_list(us), us.len() == 0))
            == JsonOutcome::Read(ConfigModel { rules: us, ..f }),
{
    reveal_strlit("\"name\":");
    reveal_strlit("\"integer_ranges\":");
    reveal_strlit("\"integer_string_rules\":");
    let key = rules_key();
    let j = rule_list(us);
    let p = list_part(key, j, us.len() == 0);
    lemma_list_part_ends(key, j, us.len() == 0);
    lemma_trim_plain(p);
    assert(p[1] == 'i');
    assert(!starts_with(trim(p), "\"name\":"@)) by {
        assert("\"name\":"@[1] == 'n');
        if starts_with(p, "\"name\":"@) {
            assert(p.subrange(0, 7)[1] == p[1]);
        }
    }
    assert(p[9] == 's');
    assert(!starts_with(trim(p), "\"integer_ranges\":"@)) by {
        assert("\"integer_ranges\":"@[9] == 'r');
        if starts_with(p, "\"integer_ranges\":"@) {
            assert(p.subrange(0, 17)[9] == p[9]);
        }
    }
    assert(p.subrange(0, 23) =~= "\"integer_string_rules\":"@);
    assert(starts_with(trim(p), "\"integer_string_rules\":"@));
    assert(!key.contains(':') && !key.contains('"'));
    lemma_list_part_content(key, j, us.len() == 0);
    if us.len() == 0 {
        assert(trim(Seq::<char>::empty()) =~= Seq::<char>::empty()) by {
            assert(strip_start(Seq::<char>::empty(), CharClass::Whitespace) == Seq::<char>::empty());
            assert(strip_end(Seq::<char>::empty(), CharClass::Whitespace) == Seq::<char>::empty());
        }
        assert(f.rules =~= us);
    } else {
        let a = seq!['\n'] + j + seq!['\n', ' ', ' '];
        let parts = us.map_values(|u: RuleModel| "    "@ + rule_json(u));
        lemma_indent_calm();
        lemma_join_first(parts, ",\n"@);
        assert(parts[0] == seq![' ', ' ', ' ', ' '] + rule_json(us[0]));
        assert(rule_json(us[0])[0] == '{') by {
            reveal_strlit("{\"range\": ");
        }
        assert(j[4] == parts[0][4]);
        assert(a[5] == '{');
        lemma_trim_nonempty(a, 5);
        let read = rule_reader();
        lemma_array_scan_run(a, read);
        lemma_array_rule_list(us);
        let st0 = array_at(Seq::<RuleModel>::empty(), Seq::<char>::empty(), 0, false);
        let tl = seq!['\n', ' ', ' '];
        lemma_array_run_concat(st0, seq!['\n'] + j, tl, read);
        assert(forall|i: int| 0 <= i < tl.len() ==> calm(#[trigger] tl[i]));
        lemma_array_run_calm(us, Seq::<char>::empty(), 0, tl, read);
        assert(array_outcome(a, read) == JsonOutcome::Read(us));
    }
}

// =====================================================================
// The whole configuration
// =====================================================================

proof fn lemma_config_unwrap(c: ConfigModel)
    ensures
        unwrap_object(config_json(c)) == seq!['\n'] + join(config_entries(c), ",\n"@) + seq!['\n'],
{
    reveal_strlit("{\n");
    reveal_strlit("\n}");
    let j = join(config_entries(c), ",\n"@);
    let inner = seq!['\n'] + j + seq!['\n'];
    let s = config_json(c);
    assert(s =~= seq!['{'] + inner + seq!['}']);
    assert(s[0] == '{');
    assert(s.last() == '}');
    lemma_trim_plain(s);
    assert(s.drop_first() =~= inner + seq!['}']);
    assert((inner + seq!['}'])[0] == '\n');
    assert(strip_start(inner + seq!['}'], CharClass::Only('{')) == inner + seq!['}']);
    assert((inner + seq!['}']).drop_last() =~= inner);
    assert(inner.last() == '\n');
    assert(strip_end(inner, CharClass::Only('}')) == inner);
}

/// The written entries of a configuration, trimmed as the reader trims
/// them.
spec fn trimmed_entries(c: ConfigModel) -> Seq<Seq<char>> {
    let named = match c.name {
        Some(n) => seq![name_part(n)],
        None => Seq::<Seq<char>>::empty(),
    };
    named + seq![
        list_part(ranges_key(), range_list(c.ranges), c.ranges.len() == 0),
        list_part(rules_key(), rule_list(c.rules), c.rules.len() == 0),
    ]
}

spec fn plain_name(c: ConfigModel) -> bool {
    c.name matches Some(n) ==> plain_quote(n)
}

/// Each written entry is two spaces and its trimmed form.
#[verifier::spinoff_prover]
proof fn lemma_entries_indented(c: ConfigModel)
    ensures
        config_entries(c).len() == trimmed_entries(c).len(),
        config_entries(c).len() >= 1,
        forall|i: int|
            0 <= i < config_entries(c).len() ==> #[trigger] config_entries(c)[i] == seq![' ', ' ']
                + trimmed_entries(c)[i],
{
    let er = ranges_entry(c.ranges);
    let eu = rules_entry(c.rules);
    let tr = list_part(ranges_key(), range_list(c.ranges), c.ranges.len() == 0);
    let tu = list_part(rules_key(), rule_list(c.rules), c.rules.len() == 0);
    lemma_ranges_entry_shape(c.ranges);
    lemma_rules_entry_shape(c.rules);
    assert(er =~= seq![' ', ' '] + tr);
    assert(eu =~= seq![' ', ' '] + tu);
    match c.name {
        Some(n) => {
            lemma_name_entry_shape(n);
            let en = "  \"name\": \""@ + n + "\""@;
            assert(en =~= seq![' ', ' '] + name_part(n));
            assert(config_entries(c) =~= seq![en, er, eu]);
            assert(trimmed_entries(c) =~= seq![name_part(n), tr, tu]);
        },
        None => {
            assert(config_entries(c) =~= seq![er, eu]);
            assert(trimmed_entries(c) =~= seq![tr, tu]);
        },
    }
}

/// The splitter passes over each written entry.
#[verifier::spinoff_prover]
proof fn lemma_entries_pass(c: ConfigModel)
    requires
        plain_name(c),
    ensures
        forall|i: int| 0 <= i < config_entries(c).len() ==> top_balanced(#[trigger] config_entries(c)[i]),
{
    lemma_entries_balanced(c.ranges, c.rules);
    match c.name {
        Some(n) => {
            lemma_name_entry_balanced(n);
            assert(config_entries(c) =~= seq![
                "  \"name\": \""@ + n + "\""@,
                ranges_entry(c.ranges),
                rules_entry(c.rules),
            ]);
        },
        None => {
            assert(config_entries(c) =~= seq![ranges_entry(c.ranges), rules_entry(c.rules)]);
        },
    }
}

/// Each trimmed entry begins and ends with non-whitespace.
#[verifier::spinoff_prover]
proof fn lemma_entries_ends(c: ConfigModel)
    ensures
        forall|i: int|
            0 <= i < trimmed_entries(c).len() ==> (#[trigger] trimmed_entries(c)[i]).len() > 0
                && trimmed_entries(c)[i][0] == '"' && (trimmed_entries(c)[i].last() == '"'
                || trimmed_entries(c)[i].last() == ']'),
{
    let tr = list_part(ranges_key(), range_list(c.ranges), c.ranges.len() == 0);
    let tu = list_part(rules_key(), rule_list(c.rules), c.rules.len() == 0);
    lemma_list_part_ends(ranges_key(), range_list(c.ranges), c.ranges.len() == 0);
    lemma_list_part_ends(rules_key(), rule_list(c.rules), c.rules.len() == 0);
    match c.name {
        Some(n) => {
            assert(name_part(n)[0] == '"');
            assert(name_part(n).last() == '"');
            assert(trimmed_entries(c) =~= seq![name_part(n), tr, tu]);
        },
        None => {
            assert(trimmed_entries(c) =~= seq![tr, tu]);
        },
    }
}

/// The reader splits the written configuration into its trimmed entries.
#[verifier::spinoff_prover]
#[verifier::rlimit(30)]
proof fn lemma_config_parts(c: ConfigModel)
    requires
        plain_name(c),
    ensures
        top_level_parts(unwrap_object(config_json(c))) == trimmed_entries(c),
{
    let es = config_entries(c);
    let ts = trimmed_entries(c);
    lemma_config_unwrap(c);
    lemma_entries_indented(c);
    lemma_entries_pass(c);
    lemma_entries_ends(c);
    lemma_split_entries(es);
    let j = join(es, ",\n"@);
    let sa = SplitScan {
        parts: es.drop_last().map_values(|e: Seq<char>| trim(seq!['\n'] + e)),
        current: seq!['\n'] + es.last(),
        ..split_start()
    };
    lemma_split_scan_run(seq!['\n'] + j + seq!['\n']);
    lemma_split_run_concat(split_start(), seq!['\n'] + j, seq!['\n']);
    assert(forall|i: int| 0 <= i < seq!['\n'].len() ==> calm(#[trigger] seq!['\n'][i]));
    lemma_split_run_calm(sa, seq!['\n']);
    let fin = SplitScan { current: sa.current + seq!['\n'], ..sa };
    assert(split_scan(seq!['\n'] + j + seq!['\n']) == fin);
    // each part trims to its entry
    let w = seq!['\n', ' ', ' '];
    let nl = seq!['\n'];
    assert(forall|i: int| 0 <= i < w.len() ==> is_whitespace(#[trigger] w[i]));
    assert(forall|i: int| 0 <= i < nl.len() ==> is_whitespace(#[trigger] nl[i]));
    assert(forall|i: int| 0 <= i < Seq::<char>::empty().len() ==> is_whitespace(
        #[trigger] Seq::<char>::empty()[i],
    ));
    assert forall|i: int| 0 <= i < es.len() - 1 implies trim(seq!['\n'] + #[trigger] es[i]) == ts[i] by {
        assert(seq!['\n'] + es[i] =~= w + ts[i] + Seq::<char>::empty());
        assert(!is_whitespace(ts[i][0]) && !is_whitespace(ts[i].last()));
        lemma_trim_between(w, ts[i], Seq::<char>::empty());
    }
    let k = es.len() - 1;
    assert(es.last() == es[k]);
    assert(fin.current =~= w + ts[k] + nl);
    assert(!is_whitespace(ts[k][0]) && !is_whitespace(ts[k].last()));
    lemma_trim_between(w, ts[k], nl);
    assert(fin.current.len() > 0);
    assert(fin.parts.push(trim(fin.current)) =~= ts);
}

/// Reading back the written text of a configuration gives the
/// configuration, when its ranges are in order and its name holds no
/// quote or backslash.
pub proof fn lemma_config_json_roundtrip(c: ConfigModel)
    requires
        forall|i: int| 0 <= i < c.ranges.len() ==> (#[trigger] c.ranges[i]).min <= c.ranges[i].max,
        forall|i: int|
            0 <= i < c.rules.len() ==> (#[trigger] c.rules[i]).range.min <= c.rules[i].range.max,
        c.name matches Some(n) ==> !n.contains('"') && !n.contains('\\'),
    ensures
        config_json_outcome(config_json(c)) == JsonOutcome::Read(c),
{
    lemma_config_parts(c);
    let ts = trimmed_entries(c);
    let f0 = ConfigModel { ranges: Seq::<RangeModel>::empty(), rules: Seq::<RuleModel>::empty(), name: None };
    assert(config_fields(Seq::<Seq<char>>::empty()) == JsonOutcome::Read(f0));
    let pr = list_part(ranges_key(), range_list(c.ranges), c.ranges.len() == 0);
    let pu = list_part(rules_key(), rule_list(c.rules), c.rules.len() == 0);
    match c.name {
        Some(n) => {
            lemma_read_name_part(f0, n);
            let f1 = ConfigModel { name: Some(n), ..f0 };
            assert(seq![name_part(n)].drop_last() =~= Seq::<Seq<char>>::empty());
            assert(config_fields(seq![name_part(n)]) == JsonOutcome::Read(f1));
            lemma_read_ranges_part(f1, c.ranges);
            let f2 = ConfigModel { ranges: c.ranges, ..f1 };
            assert(seq![name_part(n), pr].drop_last() =~= seq![name_part(n)]);
            assert(config_fields(seq![name_part(n), pr]) == JsonOutcome::Read(f2));
            lemma_read_rules_part(f2, c.rules);
            assert(ts =~= seq![name_part(n), pr, pu]);
            assert(ts.drop_last() =~= seq![name_part(n), pr]);
        },
        None => {
            lemma_read_ranges_part(f0, c.ranges);
            let f2 = ConfigModel { ranges: c.ranges, ..f0 };
            assert(seq![pr].drop_last() =~= Seq::<Seq<char>>::empty());
            assert(config_fields(seq![pr]) == JsonOutcome::Read(f2));
            lemma_read_rules_part(f2, c.rules);
            assert(ts =~= seq![pr, pu]);
            assert(ts.drop_last() =~= seq![pr]);
        },
    }
}

} // verus!
