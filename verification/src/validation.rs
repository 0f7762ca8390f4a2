//! Mixed-type input validation: integer ranges, integer-string rules,
//! overlap detection between them, validation configurations and the
//! engine that checks inputs against the rules.
//!
//! Every type has a mathematical view; contracts are stated over views.
use vstd::prelude::*;
use vstd::std_specs::cmp::PartialEqSpecImpl;
use crate::number::{
    decimal, int_error_message, int_error_text, parse_i32, parse_i32_chars, push_i32, push_usize,
    IntErrorKind,
};
use crate::text::{
    chars_of, split_chars, split_on, string_of, strip_both, strip_both_chars, texts, trim,
    trim_chars, CharClass,
};

verus! {

// =====================================================================
// Models
// =====================================================================

/// An inclusive integer range `[min, max]`.
pub struct RangeModel {
    pub min: i32,
    pub max: i32,
}

/// A range for the integer part and a bound on the string part's byte
/// length.
pub struct RuleModel {
    pub range: RangeModel,
    pub max_len: usize,
}

/// What an overlap report says.
pub struct OverlapModel {
    pub description: Seq<char>,
    pub first: Seq<char>,
    pub second: Seq<char>,
    pub start: i32,
    pub end: i32,
}

/// An error, by kind and message.
pub enum ErrorModel {
    Parse(Seq<char>),
    Io(Seq<char>),
    Configuration(Seq<char>),
    File(Seq<char>),
    Json(Seq<char>),
    Overlap(Seq<char>),
}

/// A configuration: its ranges, its rules and its optional name.
pub struct ConfigModel {
    pub ranges: Seq<RangeModel>,
    pub rules: Seq<RuleModel>,
    pub name: Option<Seq<char>>,
}

pub open spec fn in_range(r: RangeModel, x: int) -> bool {
    r.min <= x <= r.max
}

pub open spec fn max_i32(a: i32, b: i32) -> i32 {
    if a >= b {
        a
    } else {
        b
    }
}

pub open spec fn min_i32(a: i32, b: i32) -> i32 {
    if a <= b {
        a
    } else {
        b
    }
}

/// The start of the common part of two ranges.
pub open spec fn overlap_start(a: RangeModel, b: RangeModel) -> i32 {
    max_i32(a.min, b.min)
}

/// The end of the common part of two ranges.
pub open spec fn overlap_end(a: RangeModel, b: RangeModel) -> i32 {
    min_i32(a.max, b.max)
}

/// Whether two ranges share a value.
pub open spec fn ranges_meet(a: RangeModel, b: RangeModel) -> bool {
    overlap_start(a, b) <= overlap_end(a, b)
}

// =====================================================================
// Texts of reports
// =====================================================================

/// `[a, b]`
pub open spec fn bracket_pair(a: int, b: int) -> Seq<char> {
    "["@ + decimal(a) + ", "@ + decimal(b) + "]"@
}

/// `integer range [min, max]`
pub open spec fn range_text(r: RangeModel) -> Seq<char> {
    "integer range "@ + bracket_pair(r.min as int, r.max as int)
}

/// `standalone integer range [min, max]`
pub open spec fn standalone_range_text(r: RangeModel) -> Seq<char> {
    "standalone integer range "@ + bracket_pair(r.min as int, r.max as int)
}

/// `integer-string rule integer range [min, max] (max string length: n)`
pub open spec fn rule_range_text(u: RuleModel) -> Seq<char> {
    "integer-string rule integer range "@ + bracket_pair(u.range.min as int, u.range.max as int)
        + " (max string length: "@ + decimal(u.max_len as int) + ")"@
}

/// `integer-string rule with range [min, max] (max string length: n)`
pub open spec fn rule_with_range_text(u: RuleModel) -> Seq<char> {
    "integer-string rule with range "@ + bracket_pair(u.range.min as int, u.range.max as int)
        + " (max string length: "@ + decimal(u.max_len as int) + ")"@
}

/// `integer-string rule with range [min, max] and max string length n`
pub open spec fn rule_text(u: RuleModel) -> Seq<char> {
    "integer-string rule with range "@ + bracket_pair(u.range.min as int, u.range.max as int)
        + " and max string length "@ + decimal(u.max_len as int)
}

/// How an overlap report reads:
/// `description: first overlaps with second in range [start, end]`.
pub open spec fn overlap_text(d: OverlapModel) -> Seq<char> {
    d.description + ": "@ + d.first + " overlaps with "@ + d.second + " in range "@
        + bracket_pair(d.start as int, d.end as int)
}

/// The overlap report of two standalone ranges, if they meet.
pub open spec fn range_range_overlap(a: RangeModel, b: RangeModel) -> Option<OverlapModel> {
    if ranges_meet(a, b) {
        Some(
            OverlapModel {
                description: "Integer range overlap detected"@,
                first: range_text(a),
                second: range_text(b),
                start: overlap_start(a, b),
                end: overlap_end(a, b),
            },
        )
    } else {
        None
    }
}

/// The overlap report of a standalone range and a rule's range, if they
/// meet.
pub open spec fn range_rule_overlap(a: RangeModel, u: RuleModel) -> Option<OverlapModel> {
    if ranges_meet(a, u.range) {
        Some(
            OverlapModel {
                description: "Cross-type range overlap detected"@,
                first: standalone_range_text(a),
                second: rule_range_text(u),
                start: overlap_start(a, u.range),
                end: overlap_end(a, u.range),
            },
        )
    } else {
        None
    }
}

/// The overlap report of two rules' ranges, if they meet.
pub open spec fn rule_rule_overlap(u: RuleModel, w: RuleModel) -> Option<OverlapModel> {
    if ranges_meet(u.range, w.range) {
        Some(
            OverlapModel {
                description: "Integer-string rule overlap detected"@,
                first: rule_with_range_text(u),
                second: rule_with_range_text(w),
                start: overlap_start(u.range, w.range),
                end: overlap_end(u.range, w.range),
            },
        )
    } else {
        None
    }
}

/// Appends `[a, b]`.
fn push_bracket_pair(s: &mut String, a: i32, b: i32)
    ensures
        final(s)@ == old(s)@ + bracket_pair(a as int, b as int),
{
    s.append("[");
    push_i32(s, a);
    s.append(", ");
    push_i32(s, b);
    s.append("]");
    assert(s@ =~= old(s)@ + bracket_pair(a as int, b as int));
}

// =====================================================================
// Errors and statuses
// =====================================================================

/// Errors of validation operations.
#[derive(Debug)]
pub enum ValidationError {
    /// Integer input could not be parsed.
    ParseError(String),
    /// An I/O operation failed.
    IoError(String),
    /// The configuration is invalid.
    ConfigurationError(String),
    /// A file operation failed.
    FileError(String),
    /// JSON text could not be read.
    JsonError(String),
    /// Ranges of a configuration overlap.
    OverlapError(String),
}

impl View for ValidationError {
    type V = ErrorModel;

    open spec fn view(&self) -> ErrorModel {
        match self {
            ValidationError::ParseError(m) => ErrorModel::Parse(m@),
            ValidationError::IoError(m) => ErrorModel::Io(m@),
            ValidationError::ConfigurationError(m) => ErrorModel::Configuration(m@),
            ValidationError::FileError(m) => ErrorModel::File(m@),
            ValidationError::JsonError(m) => ErrorModel::Json(m@),
            ValidationError::OverlapError(m) => ErrorModel::Overlap(m@),
        }
    }
}

/// How an error reads (`Display`).
pub open spec fn error_text(e: ErrorModel) -> Seq<char> {
    match e {
        ErrorModel::Parse(m) => "Parse error: "@ + m,
        ErrorModel::Io(m) => "I/O error: "@ + m,
        ErrorModel::Configuration(m) => "Configuration error: "@ + m,
        ErrorModel::File(m) => "File error: "@ + m,
        ErrorModel::Json(m) => "JSON error: "@ + m,
        ErrorModel::Overlap(m) => "Range overlap error: "@ + m,
    }
}

impl Clone for ValidationError {
    fn clone(&self) -> (e: Self)
        ensures
            e@ == self@,
    {
        match self {
            ValidationError::ParseError(m) => ValidationError::ParseError(m.clone()),
            ValidationError::IoError(m) => ValidationError::IoError(m.clone()),
            ValidationError::ConfigurationError(m) => ValidationError::ConfigurationError(m.clone()),
            ValidationError::FileError(m) => ValidationError::FileError(m.clone()),
            ValidationError::JsonError(m) => ValidationError::JsonError(m.clone()),
            ValidationError::OverlapError(m) => ValidationError::OverlapError(m.clone()),
        }
    }
}

impl ValidationError {
    /// The displayed text of the error.
    pub fn to_display_string(&self) -> (s: String)
        ensures
            s@ == error_text(self@),
    {
        let (prefix, m) = match self {
            ValidationError::ParseError(m) => ("Parse error: ", m),
            ValidationError::IoError(m) => ("I/O error: ", m),
            ValidationError::ConfigurationError(m) => ("Configuration error: ", m),
            ValidationError::FileError(m) => ("File error: ", m),
            ValidationError::JsonError(m) => ("JSON error: ", m),
            ValidationError::OverlapError(m) => ("Range overlap error: ", m),
        };
        let mut s = String::from_str(prefix);
        s.append(m.as_str());
        s
    }

    /// The error that a failed integer parse becomes.
    pub fn from_int_error(kind: &IntErrorKind) -> (e: ValidationError)
        ensures
            e@ == ErrorModel::Parse(int_error_message(*kind)),
    {
        ValidationError::ParseError(int_error_text(kind))
    }
}

/// Whether an input passed validation.
#[derive(Debug, Clone, Copy, PartialEq, Eq, Structural)]
pub enum ValidationStatus {
    /// The input is valid according to the rules.
    Valid,
    /// The input is invalid according to the rules.
    Invalid,
}

impl ValidationStatus {
    /// The displayed text of the status: `valid` or `invalid`.
    pub fn to_display_string(&self) -> (s: String)
        ensures
            s@ == (match self {
                ValidationStatus::Valid => "valid"@,
                ValidationStatus::Invalid => "invalid"@,
            }),
    {
        match self {
            ValidationStatus::Valid => String::from_str("valid"),
            ValidationStatus::Invalid => String::from_str("invalid"),
        }
    }
}

// =====================================================================
// Overlap details
// =====================================================================

/// Where and how two ranges overlap.
#[derive(Debug, Eq)]
pub struct RangeOverlapDetails {
    overlap_description: String,
    first_range_description: String,
    second_range_description: String,
    overlap_start_value: i32,
    overlap_end_value: i32,
}

impl View for RangeOverlapDetails {
    type V = OverlapModel;

    closed spec fn view(&self) -> OverlapModel {
        OverlapModel {
            description: self.overlap_description@,
            first: self.first_range_description@,
            second: self.second_range_description@,
            start: self.overlap_start_value,
            end: self.overlap_end_value,
        }
    }
}

impl Clone for RangeOverlapDetails {
    fn clone(&self) -> (d: Self)
        ensures
            d@ == self@,
    {
        RangeOverlapDetails {
            overlap_description: self.overlap_description.clone(),
            first_range_description: self.first_range_description.clone(),
            second_range_description: self.second_range_description.clone(),
            overlap_start_value: self.overlap_start_value,
            overlap_end_value: self.overlap_end_value,
        }
    }
}

impl PartialEq for RangeOverlapDetails {
    fn eq(&self, other: &Self) -> (r: bool) {
        self.overlap_description == other.overlap_description && self.first_range_description
            == other.first_range_description && self.second_range_description
            == other.second_range_description && self.overlap_start_value == other.overlap_start_value
            && self.overlap_end_value == other.overlap_end_value
    }
}

impl PartialEqSpecImpl for RangeOverlapDetails {
    open spec fn obeys_eq_spec() -> bool {
        true
    }

    open spec fn eq_spec(&self, other: &Self) -> bool {
        self@ == other@
    }
}

/// The view of an optional overlap report.
pub open spec fn overlap_view(o: Option<RangeOverlapDetails>) -> Option<OverlapModel> {
    match o {
        Some(d) => Some(d@),
        None => None,
    }
}

impl RangeOverlapDetails {
    /// A report with the given parts.
    pub fn new(
        overlap_description: String,
        first_range_description: String,
        second_range_description: String,
        overlap_start_value: i32,
        overlap_end_value: i32,
    ) -> (d: Self)
        ensures
            d@ == (OverlapModel {
                description: overlap_description@,
                first: first_range_description@,
                second: second_range_description@,
                start: overlap_start_value,
                end: overlap_end_value,
            }),
    {
        RangeOverlapDetails {
            overlap_description,
            first_range_description,
            second_range_description,
            overlap_start_value,
            overlap_end_value,
        }
    }

    /// The kind of overlap.
    pub fn get_overlap_description(&self) -> (s: &str)
        ensures
            s@ == self@.description,
    {
        self.overlap_description.as_str()
    }

    /// The first range involved.
    pub fn get_first_range_description(&self) -> (s: &str)
        ensures
            s@ == self@.first,
    {
        self.first_range_description.as_str()
    }

    /// The second range involved.
    pub fn get_second_range_description(&self) -> (s: &str)
        ensures
            s@ == self@.second,
    {
        self.second_range_description.as_str()
    }

    /// The least value in both ranges.
    pub fn get_overlap_start_value(&self) -> (v: i32)
        ensures
            v == self@.start,
    {
        self.overlap_start_value
    }

    /// The greatest value in both ranges.
    pub fn get_overlap_end_value(&self) -> (v: i32)
        ensures
            v == self@.end,
    {
        self.overlap_end_value
    }

    /// The displayed text of the report.
    pub fn to_display_string(&self) -> (s: String)
        ensures
            s@ == overlap_text(self@),
    {
        let mut s = String::new();
        s.append(self.overlap_description.as_str());
        s.append(": ");
        s.append(self.first_range_description.as_str());
        s.append(" overlaps with ");
        s.append(self.second_range_description.as_str());
        s.append(" in range ");
        push_bracket_pair(&mut s, self.overlap_start_value, self.overlap_end_value);
        assert(s@ =~= overlap_text(self@));
        s
    }
}

// =====================================================================
// Integer ranges
// =====================================================================

/// An inclusive range of valid integers.
#[derive(Debug, PartialEq, Eq, Structural)]
pub struct IntegerValidationRange {
    minimum_value: i32,
    maximum_value: i32,
}

impl View for IntegerValidationRange {
    type V = RangeModel;

    closed spec fn view(&self) -> RangeModel {
        RangeModel { min: self.minimum_value, max: self.maximum_value }
    }
}

impl Clone for IntegerValidationRange {
    fn clone(&self) -> (r: Self)
        ensures
            r@ == self@,
    {
        proof {
            use_type_invariant(self);
        }
        IntegerValidationRange { minimum_value: self.minimum_value, maximum_value: self.maximum_value }
    }
}

/// The views of a sequence of ranges.
pub open spec fn range_models(v: Seq<IntegerValidationRange>) -> Seq<RangeModel> {
    v.map_values(|r: IntegerValidationRange| r@)
}

impl IntegerValidationRange {
    /// The bounds are in order.
    #[verifier::type_invariant]
    closed spec fn well_ordered(self) -> bool {
        self.minimum_value <= self.maximum_value
    }

    /// The range `[minimum_value, maximum_value]`; the bounds must be in
    /// order.
    pub fn new(minimum_value: i32, maximum_value: i32) -> (r: Self)
        requires
            minimum_value <= maximum_value,
        ensures
            r@ == (RangeModel { min: minimum_value, max: maximum_value }),
    {
        IntegerValidationRange { minimum_value, maximum_value }
    }

    /// The least value of the range.
    pub fn get_minimum_value(&self) -> (v: i32)
        ensures
            v == self@.min,
            v <= self@.max,
    {
        proof {
            use_type_invariant(self);
        }
        self.minimum_value
    }

    /// The greatest value of the range.
    pub fn get_maximum_value(&self) -> (v: i32)
        ensures
            v == self@.max,
            self@.min <= v,
    {
        proof {
            use_type_invariant(self);
        }
        self.maximum_value
    }

    /// Whether `value` lies in the range, bounds included.
    pub fn contains_value(&self, value: i32) -> (b: bool)
        ensures
            b == in_range(self@, value as int),
    {
        value >= self.minimum_value && value <= self.maximum_value
    }

    /// The report of this range's overlap with another range, if the two
    /// share a value.
    pub fn check_overlap_with_integer_range(&self, other_range: &IntegerValidationRange) -> (r:
        Option<RangeOverlapDetails>)
        ensures
            overlap_view(r) == range_range_overlap(self@, other_range@),
            r is Some <==> exists|x: int| in_range(self@, x) && in_range(other_range@, x),
    {
        let overlap_start = if self.minimum_value >= other_range.minimum_value {
            self.minimum_value
        } else {
            other_range.minimum_value
        };
        let overlap_end = if self.maximum_value <= other_range.maximum_value {
            self.maximum_value
        } else {
            other_range.maximum_value
        };
        proof {
            lemma_meet_iff_common_value(self@, other_range@);
        }
        if overlap_start <= overlap_end {
            Some(
                RangeOverlapDetails::new(
                    String::from_str("Integer range overlap detected"),
                    self.create_range_description(),
                    other_range.create_range_description(),
                    overlap_start,
                    overlap_end,
                ),
            )
        } else {
            None
        }
    }

    /// The report of this range's overlap with the range of an
    /// integer-string rule, if the two share a value.
    pub fn check_overlap_with_integer_string_rule(
        &self,
        integer_string_rule: &IntegerStringValidationRule,
    ) -> (r: Option<RangeOverlapDetails>)
        ensures
            overlap_view(r) == range_rule_overlap(self@, integer_string_rule@),
            r is Some <==> exists|x: int|
                in_range(self@, x) && in_range(integer_string_rule@.range, x),
    {
        let other_range = integer_string_rule.get_integer_range();
        let overlap_start = if self.minimum_value >= other_range.minimum_value {
            self.minimum_value
        } else {
            other_range.minimum_value
        };
        let overlap_end = if self.maximum_value <= other_range.maximum_value {
            self.maximum_value
        } else {
            other_range.maximum_value
        };
        proof {
            lemma_meet_iff_common_value(self@, other_range@);
        }
        if overlap_start <= overlap_end {
            let mut first = String::from_str("standalone integer range ");
            push_bracket_pair(&mut first, self.minimum_value, self.maximum_value);
            let mut second = String::from_str("integer-string rule integer range ");
            push_bracket_pair(&mut second, other_range.minimum_value, other_range.maximum_value);
            second.append(" (max string length: ");
            push_usize(&mut second, integer_string_rule.get_maximum_string_length());
            second.append(")");
            assert(second@ =~= rule_range_text(integer_string_rule@));
            Some(
                RangeOverlapDetails::new(
                    String::from_str("Cross-type range overlap detected"),
                    first,
                    second,
                    overlap_start,
                    overlap_end,
                ),
            )
        } else {
            None
        }
    }

    /// `integer range [min, max]`
    pub fn create_range_description(&self) -> (s: String)
        ensures
            s@ == range_text(self@),
    {
        let mut s = String::from_str("integer range ");
        push_bracket_pair(&mut s, self.minimum_value, self.maximum_value);
        s
    }
}

/// Two ranges meet exactly when they share a value.
pub proof fn lemma_meet_iff_common_value(a: RangeModel, b: RangeModel)
    ensures
        ranges_meet(a, b) <==> exists|x: int| in_range(a, x) && in_range(b, x),
{
    if ranges_meet(a, b) {
        assert(in_range(a, overlap_start(a, b) as int) && in_range(b, overlap_start(a, b) as int));
    }
}

// =====================================================================
// Integer-string rules
// =====================================================================

/// A rule for integer-string pairs: the integer must lie in a range and the
/// string's length in bytes must not exceed a bound.
#[derive(Debug, PartialEq, Eq, Structural)]
pub struct IntegerStringValidationRule {
    integer_range: IntegerValidationRange,
    maximum_string_length: usize,
}

impl View for IntegerStringValidationRule {
    type V = RuleModel;

    closed spec fn view(&self) -> RuleModel {
        RuleModel { range: self.integer_range@, max_len: self.maximum_string_length }
    }
}

impl Clone for IntegerStringValidationRule {
    fn clone(&self) -> (u: Self)
        ensures
            u@ == self@,
    {
        IntegerStringValidationRule {
            integer_range: self.integer_range.clone(),
            maximum_string_length: self.maximum_string_length,
        }
    }
}

/// The views of a sequence of rules.
pub open spec fn rule_models(v: Seq<IntegerStringValidationRule>) -> Seq<RuleModel> {
    v.map_values(|u: IntegerStringValidationRule| u@)
}

/// The length of a text in UTF-8 bytes (what `str::len` counts).
pub open spec fn byte_len(s: Seq<char>) -> int {
    vstd::utf8::encode_utf8(s).len() as int
}

/// Whether a pair satisfies a rule; `byte_len` is the string's UTF-8
/// length.
pub open spec fn rule_accepts(u: RuleModel, x: int, byte_len: int) -> bool {
    in_range(u.range, x) && byte_len <= u.max_len
}

impl IntegerStringValidationRule {
    /// The rule with the given range and length bound.
    pub fn new(integer_range: IntegerValidationRange, maximum_string_length: usize) -> (u: Self)
        ensures
            u@ == (RuleModel { range: integer_range@, max_len: maximum_string_length }),
    {
        IntegerStringValidationRule { integer_range, maximum_string_length }
    }

    /// The range for the integer part.
    pub fn get_integer_range(&self) -> (r: &IntegerValidationRange)
        ensures
            r@ == self@.range,
    {
        &self.integer_range
    }

    /// The bound on the string part's length.
    pub fn get_maximum_string_length(&self) -> (n: usize)
        ensures
            n == self@.max_len,
    {
        self.maximum_string_length
    }

    /// Whether the pair satisfies the rule; the string's length is counted
    /// in bytes.
    pub fn validate_pair(&self, integer_value: i32, string_value: &str) -> (b: bool)
        ensures
            b == rule_accepts(self@, integer_value as int, byte_len(string_value@)),
    {
        self.integer_range.contains_value(integer_value) && string_value.as_bytes().len()
            <= self.maximum_string_length
    }

    /// The report of this rule's range overlapping another rule's range,
    /// if the two share a value.
    pub fn check_overlap_with_integer_string_rule(&self, other_rule: &IntegerStringValidationRule) -> (r:
        Option<RangeOverlapDetails>)
        ensures
            overlap_view(r) == rule_rule_overlap(self@, other_rule@),
            r is Some <==> exists|x: int|
                in_range(self@.range, x) && in_range(other_rule@.range, x),
    {
        let a = &self.integer_range;
        let b = other_rule.get_integer_range();
        let overlap_start = if a.minimum_value >= b.minimum_value {
            a.minimum_value
        } else {
            b.minimum_value
        };
        let overlap_end = if a.maximum_value <= b.maximum_value {
            a.maximum_value
        } else {
            b.maximum_value
        };
        proof {
            lemma_meet_iff_common_value(a@, b@);
        }
        if overlap_start <= overlap_end {
            let first = self.rule_with_range_description();
            let second = other_rule.rule_with_range_description();
            Some(
                RangeOverlapDetails::new(
                    String::from_str("Integer-string rule overlap detected"),
                    first,
                    second,
                    overlap_start,
                    overlap_end,
                ),
            )
        } else {
            None
        }
    }

    /// `integer-string rule with range [min, max] (max string length: n)`
    fn rule_with_range_description(&self) -> (s: String)
        ensures
            s@ == rule_with_range_text(self@),
    {
        let mut s = String::from_str("integer-string rule with range ");
        push_bracket_pair(&mut s, self.integer_range.minimum_value, self.integer_range.maximum_value);
        s.append(" (max string length: ");
        push_usize(&mut s, self.maximum_string_length);
        s.append(")");
        assert(s@ =~= rule_with_range_text(self@));
        s
    }

    /// `integer-string rule with range [min, max] and max string length n`
    pub fn create_rule_description(&self) -> (s: String)
        ensures
            s@ == rule_text(self@),
    {
        let mut s = String::from_str("integer-string rule with range ");
        push_bracket_pair(&mut s, self.integer_range.minimum_value, self.integer_range.maximum_value);
        s.append(" and max string length ");
        push_usize(&mut s, self.maximum_string_length);
        assert(s@ =~= rule_text(self@));
        s
    }
}

// =====================================================================
// Overlap detection over whole configurations
// =====================================================================

/// The reports held by a sequence of overlap details.
pub open spec fn overlap_models(v: Seq<RangeOverlapDetails>) -> Seq<OverlapModel> {
    v.map_values(|d: RangeOverlapDetails| d@)
}

/// An optional report as a sequence of zero or one reports.
pub open spec fn opt_seq(o: Option<OverlapModel>) -> Seq<OverlapModel> {
    match o {
        Some(d) => seq![d],
        None => Seq::<OverlapModel>::empty(),
    }
}

/// Reports of `xs[i]` against each `xs[j]` with `i < j < k`, by increasing `j`.
pub open spec fn self_pairs_row<T>(
    xs: Seq<T>,
    i: int,
    k: int,
    f: spec_fn(T, T) -> Option<OverlapModel>,
) -> Seq<OverlapModel>
    decreases k,
{
    if k <= 0 {
        Seq::<OverlapModel>::empty()
    } else {
        self_pairs_row(xs, i, k - 1, f) + if i < k - 1 {
            opt_seq(f(xs[i], xs[k - 1]))
        } else {
            Seq::<OverlapModel>::empty()
        }
    }
}

/// Reports of every pair `xs[i]`, `xs[j]` with `i < m` and `i < j`, ordered
/// by `i`, then by `j`.
pub open spec fn self_pairs<T>(xs: Seq<T>, m: int, f: spec_fn(T, T) -> Option<OverlapModel>) -> Seq<
    OverlapModel,
>
    decreases m,
{
    if m <= 0 {
        Seq::<OverlapModel>::empty()
    } else {
        self_pairs(xs, m - 1, f) + self_pairs_row(xs, m - 1, xs.len() as int, f)
    }
}

/// Reports of `a` against each `ys[j]` with `j < k`.
pub open spec fn cross_row<A, B>(
    a: A,
    ys: Seq<B>,
    k: int,
    f: spec_fn(A, B) -> Option<OverlapModel>,
) -> Seq<OverlapModel>
    decreases k,
{
    if k <= 0 {
        Seq::<OverlapModel>::empty()
    } else {
        cross_row(a, ys, k - 1, f) + opt_seq(f(a, ys[k - 1]))
    }
}

/// Reports of each `xs[i]` (`i < m`) against each `ys[j]`, ordered by `i`,
/// then by `j`.
pub open spec fn cross_pairs<A, B>(
    xs: Seq<A>,
    ys: Seq<B>,
    m: int,
    f: spec_fn(A, B) -> Option<OverlapModel>,
) -> Seq<OverlapModel>
    decreases m,
{
    if m <= 0 {
        Seq::<OverlapModel>::empty()
    } else {
        cross_pairs(xs, ys, m - 1, f) + cross_row(xs[m - 1], ys, ys.len() as int, f)
    }
}

pub open spec fn range_range_fn() -> spec_fn(RangeModel, RangeModel) -> Option<OverlapModel> {
    |a: RangeModel, b: RangeModel| range_range_overlap(a, b)
}

pub open spec fn rule_rule_fn() -> spec_fn(RuleModel, RuleModel) -> Option<OverlapModel> {
    |a: RuleModel, b: RuleModel| rule_rule_overlap(a, b)
}

pub open spec fn range_rule_fn() -> spec_fn(RangeModel, RuleModel) -> Option<OverlapModel> {
    |a: RangeModel, u: RuleModel| range_rule_overlap(a, u)
}

/// Overlaps among standalone ranges.
pub open spec fn range_overlaps(rs: Seq<RangeModel>) -> Seq<OverlapModel> {
    self_pairs(rs, rs.len() as int, range_range_fn())
}

/// Overlaps among the ranges of rules.
pub open spec fn rule_overlaps(us: Seq<RuleModel>) -> Seq<OverlapModel> {
    self_pairs(us, us.len() as int, rule_rule_fn())
}

/// Overlaps of standalone ranges with ranges of rules.
pub open spec fn cross_overlaps(rs: Seq<RangeModel>, us: Seq<RuleModel>) -> Seq<OverlapModel> {
    cross_pairs(rs, us, rs.len() as int, range_rule_fn())
}

/// Every overlap of a configuration, in the order they are reported.
pub open spec fn all_overlaps(rs: Seq<RangeModel>, us: Seq<RuleModel>) -> Seq<OverlapModel> {
    range_overlaps(rs) + rule_overlaps(us) + cross_overlaps(rs, us)
}

/// One numbered entry of an overlap summary.
pub open spec fn summary_entry(k: int, d: OverlapModel) -> Seq<char> {
    decimal(k + 1) + ". "@ + overlap_text(d) + "\n   Overlapping values: "@ + decimal(d.start as int)
        + " to "@ + decimal(d.end as int) + "\n\n"@
}

/// The numbered entries for all reports.
pub open spec fn summary_entries(ds: Seq<OverlapModel>) -> Seq<char>
    decreases ds.len(),
{
    if ds.len() == 0 {
        Seq::<char>::empty()
    } else {
        summary_entries(ds.drop_last()) + summary_entry(ds.len() - 1, ds.last())
    }
}

/// The message of an overlap error.
pub open spec fn overlap_summary(ds: Seq<OverlapModel>) -> Seq<char> {
    "Configuration contains "@ + decimal(ds.len() as int)
        + " range overlap(s) that would cause ambiguous validation:\n\n"@ + summary_entries(ds)
        + "Please modify your ranges to eliminate these overlaps before proceeding."@
}

/// What overlap detection answers for a configuration.
pub open spec fn detection_result(rs: Seq<RangeModel>, us: Seq<RuleModel>) -> Result<
    (),
    ErrorModel,
> {
    let all = all_overlaps(rs, us);
    if all.len() == 0 {
        Ok(())
    } else {
        Err(ErrorModel::Overlap(overlap_summary(all)))
    }
}

/// Whether some integer lies in both ranges.
pub open spec fn share_value(a: RangeModel, b: RangeModel) -> bool {
    exists|x: int| in_range(a, x) && in_range(b, x)
}

/// No value is accepted by two of the configuration's ranges: no two
/// standalone ranges, no two rule ranges and no standalone range and rule
/// range share a value.
pub open spec fn unambiguous(rs: Seq<RangeModel>, us: Seq<RuleModel>) -> bool {
    &&& forall|i: int, j: int| 0 <= i < j < rs.len() ==> !#[trigger] share_value(rs[i], rs[j])
    &&& forall|i: int, j: int|
        0 <= i < j < us.len() ==> !#[trigger] share_value(us[i].range, us[j].range)
    &&& forall|i: int, j: int|
        0 <= i < rs.len() && 0 <= j < us.len() ==> !#[trigger] share_value(rs[i], us[j].range)
}

/// Appends the reports of `w` to `v`.
fn extend_details(v: &mut Vec<RangeOverlapDetails>, w: Vec<RangeOverlapDetails>)
    ensures
        overlap_models(final(v)@) == overlap_models(old(v)@) + overlap_models(w@),
{
    let mut i: usize = 0;
    while i < w.len()
        invariant
            i <= w@.len(),
            overlap_models(v@) == overlap_models(old(v)@) + overlap_models(w@).subrange(0, i as int),
        decreases w@.len() - i,
    {
        let ghost prev = v@;
        v.push(w[i].clone());
        assert(overlap_models(v@) =~= overlap_models(prev).push(w@[i as int]@));
        assert(overlap_models(w@).subrange(0, i + 1) =~= overlap_models(w@).subrange(0, i as int).push(w@[i as int]@));
        i = i + 1;
    }
    assert(overlap_models(w@).subrange(0, w@.len() as int) =~= overlap_models(w@));
}

/// Appends the summary entry numbered `k + 1` for `d`.
fn push_summary_entry(s: &mut String, k: usize, d: &RangeOverlapDetails)
    requires
        k < usize::MAX,
    ensures
        final(s)@ == old(s)@ + summary_entry(k as int, d@),
{
    push_usize(s, k + 1);
    s.append(". ");
    let shown = d.to_display_string();
    s.append(shown.as_str());
    s.append("\n   Overlapping values: ");
    push_i32(s, d.get_overlap_start_value());
    s.append(" to ");
    push_i32(s, d.get_overlap_end_value());
    s.append("\n\n");
    assert(s@ =~= old(s)@ + summary_entry(k as int, d@));
}

/// Detection of range overlaps within a configuration.
pub struct ValidationRangeOverlapDetector;

impl ValidationRangeOverlapDetector {
    /// `Ok(())` when no two of the given ranges and rule ranges overlap;
    /// otherwise an overlap error whose message lists every overlap.
    pub fn detect_all_range_overlaps(
        integer_ranges: &[IntegerValidationRange],
        integer_string_rules: &[IntegerStringValidationRule],
    ) -> (r: Result<(), ValidationError>)
        ensures
            match detection_result(range_models(integer_ranges@), rule_models(integer_string_rules@)) {
                Ok(_) => r is Ok,
                Err(e) => r matches Err(f) && f@ == e,
            },
            r is Ok <==> unambiguous(range_models(integer_ranges@), rule_models(integer_string_rules@)),
    {
        let mut detected = Self::detect_integer_range_to_integer_range_overlaps(integer_ranges);
        let b = Self::detect_integer_string_rule_to_integer_string_rule_overlaps(integer_string_rules);
        extend_details(&mut detected, b);
        let c = Self::detect_cross_type_range_overlaps(integer_ranges, integer_string_rules);
        extend_details(&mut detected, c);
        proof {
            lemma_no_overlaps_iff_unambiguous(range_models(integer_ranges@), rule_models(integer_string_rules@));
        }
        if detected.len() > 0 {
            let summary = Self::create_overlap_error_summary(detected.as_slice());
            return Err(ValidationError::OverlapError(summary));
        }
        Ok(())
    }

    /// Reports of every overlapping pair of standalone ranges.
    fn detect_integer_range_to_integer_range_overlaps(integer_ranges: &[IntegerValidationRange]) -> (out:
        Vec<RangeOverlapDetails>)
        ensures
            overlap_models(out@) == range_overlaps(range_models(integer_ranges@)),
    {
        let ghost rs = range_models(integer_ranges@);
        let n = integer_ranges.len();
        let mut out: Vec<RangeOverlapDetails> = Vec::new();
        let mut i: usize = 0;
        while i < n
            invariant
                n == integer_ranges@.len(),
                rs == range_models(integer_ranges@),
                i <= n,
                overlap_models(out@) == self_pairs(rs, i as int, range_range_fn()),
            decreases n - i,
        {
            let mut j: usize = 0;
            while j < n
                invariant
                    n == integer_ranges@.len(),
                    rs == range_models(integer_ranges@),
                    i < n,
                    j <= n,
                    overlap_models(out@) == self_pairs(rs, i as int, range_range_fn())
                        + self_pairs_row(rs, i as int, j as int, range_range_fn()),
                decreases n - j,
            {
                let ghost before = overlap_models(out@);
                if i < j {
                    let o = integer_ranges[i].check_overlap_with_integer_range(&integer_ranges[j]);
                    assert(rs[i as int] == integer_ranges@[i as int]@);
                    assert(rs[j as int] == integer_ranges@[j as int]@);
                    match o {
                        Some(d) => {
                            out.push(d);
                            assert(overlap_models(out@) =~= before.push(d@));
                        },
                        None => {},
                    }
                }
                assert(overlap_models(out@) =~= self_pairs(rs, i as int, range_range_fn())
                    + self_pairs_row(rs, i as int, j + 1, range_range_fn()));
                j = j + 1;
            }
            i = i + 1;
        }
        out
    }

    /// Reports of every overlapping pair of rule ranges.
    fn detect_integer_string_rule_to_integer_string_rule_overlaps(
        integer_string_rules: &[IntegerStringValidationRule],
    ) -> (out: Vec<RangeOverlapDetails>)
        ensures
            overlap_models(out@) == rule_overlaps(rule_models(integer_string_rules@)),
    {
        let ghost us = rule_models(integer_string_rules@);
        let n = integer_string_rules.len();
        let mut out: Vec<RangeOverlapDetails> = Vec::new();
        let mut i: usize = 0;
        while i < n
            invariant
                n == integer_string_rules@.len(),
                us == rule_models(integer_string_rules@),
                i <= n,
                overlap_models(out@) == self_pairs(us, i as int, rule_rule_fn()),
            decreases n - i,
        {
            let mut j: usize = 0;
            while j < n
                invariant
                    n == integer_string_rules@.len(),
                    us == rule_models(integer_string_rules@),
                    i < n,
                    j <= n,
                    overlap_models(out@) == self_pairs(us, i as int, rule_rule_fn()) + self_pairs_row(
                        us,
                        i as int,
                        j as int,
                        rule_rule_fn(),
                    ),
                decreases n - j,
            {
                let ghost before = overlap_models(out@);
                if i < j {
                    let o = integer_string_rules[i].check_overlap_with_integer_string_rule(
                        &integer_string_rules[j],
                    );
                    assert(us[i as int] == integer_string_rules@[i as int]@);
                    assert(us[j as int] == integer_string_rules@[j as int]@);
                    match o {
                        Some(d) => {
                            out.push(d);
                            assert(overlap_models(out@) =~= before.push(d@));
                        },
                        None => {},
                    }
                }
                assert(overlap_models(out@) =~= self_pairs(us, i as int, rule_rule_fn())
                    + self_pairs_row(us, i as int, j + 1, rule_rule_fn()));
                j = j + 1;
            }
            i = i + 1;
        }
        out
    }

    /// Reports of every standalone range overlapping a rule range.
    fn detect_cross_type_range_overlaps(
        integer_ranges: &[IntegerValidationRange],
        integer_string_rules: &[IntegerStringValidationRule],
    ) -> (out: Vec<RangeOverlapDetails>)
        ensures
            overlap_models(out@) == cross_overlaps(
                range_models(integer_ranges@),
                rule_models(integer_string_rules@),
            ),
    {
        let ghost rs = range_models(integer_ranges@);
        let ghost us = rule_models(integer_string_rules@);
        let n = integer_ranges.len();
        let m = integer_string_rules.len();
        let mut out: Vec<RangeOverlapDetails> = Vec::new();
        let mut i: usize = 0;
        while i < n
            invariant
                n == integer_ranges@.len(),
                m == integer_string_rules@.len(),
                rs == range_models(integer_ranges@),
                us == rule_models(integer_string_rules@),
                i <= n,
                overlap_models(out@) == cross_pairs(rs, us, i as int, range_rule_fn()),
            decreases n - i,
        {
            let mut j: usize = 0;
            while j < m
                invariant
                    n == integer_ranges@.len(),
                    m == integer_string_rules@.len(),
                    rs == range_models(integer_ranges@),
                    us == rule_models(integer_string_rules@),
                    i < n,
                    j <= m,
                    overlap_models(out@) == cross_pairs(rs, us, i as int, range_rule_fn()) + cross_row(
                        rs[i as int],
                        us,
                        j as int,
                        range_rule_fn(),
                    ),
                decreases m - j,
            {
                let ghost before = overlap_models(out@);
                let o = integer_ranges[i].check_overlap_with_integer_string_rule(&integer_string_rules[j]);
                assert(rs[i as int] == integer_ranges@[i as int]@);
                assert(us[j as int] == integer_string_rules@[j as int]@);
                match o {
                    Some(d) => {
                        out.push(d);
                        assert(overlap_models(out@) =~= before.push(d@));
                    },
                    None => {},
                }
                assert(overlap_models(out@) =~= cross_pairs(rs, us, i as int, range_rule_fn())
                    + cross_row(rs[i as int], us, j + 1, range_rule_fn()));
                j = j + 1;
            }
            i = i + 1;
        }
        out
    }

    /// The message listing all detected overlaps.
    fn create_overlap_error_summary(detected_overlaps: &[RangeOverlapDetails]) -> (s: String)
        ensures
            s@ == overlap_summary(overlap_models(detected_overlaps@)),
    {
        let ghost ds = overlap_models(detected_overlaps@);
        let n = detected_overlaps.len();
        let mut s = String::from_str("Configuration contains ");
        push_usize(&mut s, n);
        s.append(" range overlap(s) that would cause ambiguous validation:\n\n");
        let ghost head = s@;
        let mut k: usize = 0;
        assert(ds.subrange(0, 0) =~= Seq::<OverlapModel>::empty());
        while k < n
            invariant
                n == detected_overlaps@.len(),
                ds == overlap_models(detected_overlaps@),
                k <= n,
                s@ == head + summary_entries(ds.subrange(0, k as int)),
            decreases n - k,
        {
            let ghost prev = s@;
            push_summary_entry(&mut s, k, &detected_overlaps[k]);
            assert(ds.subrange(0, k + 1).drop_last() =~= ds.subrange(0, k as int));
            assert(ds[k as int] == detected_overlaps@[k as int]@);
            k = k + 1;
        }
        assert(ds.subrange(0, n as int) =~= ds);
        s.append("Please modify your ranges to eliminate these overlaps before proceeding.");
        assert(s@ =~= overlap_summary(ds));
        s
    }
}

proof fn lemma_self_pairs_row_empty<T>(
    xs: Seq<T>,
    i: int,
    k: int,
    f: spec_fn(T, T) -> Option<OverlapModel>,
)
    requires
        0 <= i < xs.len(),
        k <= xs.len(),
    ensures
        self_pairs_row(xs, i, k, f).len() == 0 <==> forall|j: int|
            i < j < k ==> #[trigger] f(xs[i], xs[j]) is None,
    decreases k,
{
    if k > 0 {
        lemma_self_pairs_row_empty(xs, i, k - 1, f);
        if i < k - 1 {
            let o = f(xs[i], xs[k - 1]);
            assert(opt_seq(o).len() == 0 <==> o is None);
            if self_pairs_row(xs, i, k, f).len() == 0 {
                assert forall|j: int| i < j < k implies #[trigger] f(xs[i], xs[j]) is None by {
                    if j < k - 1 {
                    }
                }
            }
        }
    }
}

proof fn lemma_self_pairs_empty<T>(xs: Seq<T>, m: int, f: spec_fn(T, T) -> Option<OverlapModel>)
    requires
        m <= xs.len(),
    ensures
        self_pairs(xs, m, f).len() == 0 <==> forall|i: int, j: int|
            0 <= i < m && i < j < xs.len() ==> #[trigger] f(xs[i], xs[j]) is None,
    decreases m,
{
    if m > 0 {
        lemma_self_pairs_empty(xs, m - 1, f);
        lemma_self_pairs_row_empty(xs, m - 1, xs.len() as int, f);
    }
}

proof fn lemma_cross_row_empty<A, B>(a: A, ys: Seq<B>, k: int, f: spec_fn(A, B) -> Option<OverlapModel>)
    requires
        k <= ys.len(),
    ensures
        cross_row(a, ys, k, f).len() == 0 <==> forall|j: int| 0 <= j < k ==> #[trigger] f(a, ys[j]) is None,
    decreases k,
{
    if k > 0 {
        lemma_cross_row_empty(a, ys, k - 1, f);
        let o = f(a, ys[k - 1]);
        assert(opt_seq(o).len() == 0 <==> o is None);
    }
}

proof fn lemma_cross_pairs_empty<A, B>(
    xs: Seq<A>,
    ys: Seq<B>,
    m: int,
    f: spec_fn(A, B) -> Option<OverlapModel>,
)
    requires
        m <= xs.len(),
    ensures
        cross_pairs(xs, ys, m, f).len() == 0 <==> forall|i: int, j: int|
            0 <= i < m && 0 <= j < ys.len() ==> #[trigger] f(xs[i], ys[j]) is None,
    decreases m,
{
    if m > 0 {
        lemma_cross_pairs_empty(xs, ys, m - 1, f);
        lemma_cross_row_empty(xs[m - 1], ys, ys.len() as int, f);
    }
}

proof fn lemma_range_overlaps_empty(rs: Seq<RangeModel>)
    ensures
        range_overlaps(rs).len() == 0 <==> forall|i: int, j: int|
            0 <= i < j < rs.len() ==> !#[trigger] share_value(rs[i], rs[j]),
{
    lemma_self_pairs_empty(rs, rs.len() as int, range_range_fn());
    assert forall|i: int, j: int| 0 <= i < j < rs.len() implies (#[trigger] range_range_fn()(rs[i], rs[j]) is None
        <==> !share_value(rs[i], rs[j])) by {
        lemma_meet_iff_common_value(rs[i], rs[j]);
    }
    if range_overlaps(rs).len() == 0 {
        assert forall|i: int, j: int| 0 <= i < j < rs.len() implies !#[trigger] share_value(rs[i], rs[j]) by {
            assert(range_range_fn()(rs[i], rs[j]) is None);
        }
    } else {
        let (i, j) = choose|i: int, j: int| 0 <= i < i + 1 <= j < rs.len() && !(#[trigger] range_range_fn()(rs[i], rs[j]) is None);
        assert(share_value(rs[i], rs[j]));
    }
}

proof fn lemma_rule_overlaps_empty(us: Seq<RuleModel>)
    ensures
        rule_overlaps(us).len() == 0 <==> forall|i: int, j: int|
            0 <= i < j < us.len() ==> !#[trigger] share_value(us[i].range, us[j].range),
{
    lemma_self_pairs_empty(us, us.len() as int, rule_rule_fn());
    assert forall|i: int, j: int| 0 <= i < j < us.len() implies (#[trigger] rule_rule_fn()(us[i], us[j]) is None
        <==> !share_value(us[i].range, us[j].range)) by {
        lemma_meet_iff_common_value(us[i].range, us[j].range);
    }
    if rule_overlaps(us).len() == 0 {
        assert forall|i: int, j: int| 0 <= i < j < us.len() implies !#[trigger] share_value(us[i].range, us[j].range) by {
            assert(rule_rule_fn()(us[i], us[j]) is None);
        }
    } else {
        let (i, j) = choose|i: int, j: int| 0 <= i < i + 1 <= j < us.len() && !(#[trigger] rule_rule_fn()(us[i], us[j]) is None);
        assert(share_value(us[i].range, us[j].range));
    }
}

proof fn lemma_cross_overlaps_empty(rs: Seq<RangeModel>, us: Seq<RuleModel>)
    ensures
        cross_overlaps(rs, us).len() == 0 <==> forall|i: int, j: int|
            0 <= i < rs.len() && 0 <= j < us.len() ==> !#[trigger] share_value(rs[i], us[j].range),
{
    lemma_cross_pairs_empty(rs, us, rs.len() as int, range_rule_fn());
    assert forall|i: int, j: int| 0 <= i < rs.len() && 0 <= j < us.len() implies (#[trigger] range_rule_fn()(rs[i], us[j]) is None
        <==> !share_value(rs[i], us[j].range)) by {
        lemma_meet_iff_common_value(rs[i], us[j].range);
    }
    if cross_overlaps(rs, us).len() == 0 {
        assert forall|i: int, j: int| 0 <= i < rs.len() && 0 <= j < us.len() implies !#[trigger] share_value(rs[i], us[j].range) by {
            assert(range_rule_fn()(rs[i], us[j]) is None);
        }
    } else {
        let (i, j) = choose|i: int, j: int| 0 <= i < rs.len() && 0 <= j < us.len() && !(#[trigger] range_rule_fn()(rs[i], us[j]) is None);
        assert(share_value(rs[i], us[j].range));
    }
}

/// A configuration has no overlap to report exactly when no value is
/// accepted by two of its ranges.
pub proof fn lemma_no_overlaps_iff_unambiguous(rs: Seq<RangeModel>, us: Seq<RuleModel>)
    ensures
        all_overlaps(rs, us).len() == 0 <==> unambiguous(rs, us),
{
    lemma_range_overlaps_empty(rs);
    lemma_rule_overlaps_empty(us);
    lemma_cross_overlaps_empty(rs, us);
}

/// An overlap of two ranges is found whichever of them is checked against
/// the other, and covers the same values either way.
pub proof fn lemma_overlap_symmetric(a: RangeModel, b: RangeModel, u: RuleModel, w: RuleModel)
    ensures
        range_range_overlap(a, b) is Some <==> range_range_overlap(b, a) is Some,
        range_range_overlap(a, b) matches Some(d) ==> (range_range_overlap(b, a) matches Some(e)
            && d.start == e.start && d.end == e.end),
        rule_rule_overlap(u, w) is Some <==> rule_rule_overlap(w, u) is Some,
        rule_rule_overlap(u, w) matches Some(d) ==> (rule_rule_overlap(w, u) matches Some(e)
            && d.start == e.start && d.end == e.end),
{
}

/// The values both ranges contain are exactly those from the start to the
/// end of their overlap; two ranges without an overlap share no value.
pub proof fn lemma_overlap_is_common_values(a: RangeModel, b: RangeModel)
    ensures
        forall|x: int|
            in_range(a, x) && in_range(b, x) <==> overlap_start(a, b) <= x <= overlap_end(a, b),
        range_range_overlap(a, b) matches Some(d) ==> forall|x: int|
            in_range(a, x) && in_range(b, x) <==> d.start <= x <= d.end,
        range_range_overlap(a, b) is None ==> !share_value(a, b),
{
}

/// In an unambiguous configuration no integer lies in two of the
/// standalone ranges, in two of the rules' ranges, or in a standalone
/// range and a rule's range.
pub proof fn lemma_unambiguous_single_match(rs: Seq<RangeModel>, us: Seq<RuleModel>, x: int)
    requires
        unambiguous(rs, us),
    ensures
        forall|i: int, j: int|
            0 <= i < rs.len() && 0 <= j < rs.len() && in_range(#[trigger] rs[i], x) && in_range(
                #[trigger] rs[j],
                x,
            ) ==> i == j,
        forall|i: int, j: int|
            0 <= i < us.len() && 0 <= j < us.len() && in_range(#[trigger] us[i].range, x)
                && in_range(#[trigger] us[j].range, x) ==> i == j,
        forall|i: int, j: int|
            0 <= i < rs.len() && 0 <= j < us.len() ==> !(in_range(#[trigger] rs[i], x) && in_range(
                #[trigger] us[j].range,
                x,
            )),
{
    assert forall|i: int, j: int|
        0 <= i < rs.len() && 0 <= j < rs.len() && in_range(#[trigger] rs[i], x) && in_range(
            #[trigger] rs[j],
            x,
        ) implies i == j by {
        if i < j {
            assert(share_value(rs[i], rs[j]));
        } else if j < i {
            assert(share_value(rs[j], rs[i]));
        }
    }
    assert forall|i: int, j: int|
        0 <= i < us.len() && 0 <= j < us.len() && in_range(#[trigger] us[i].range, x) && in_range(
            #[trigger] us[j].range,
            x,
        ) implies i == j by {
        if i < j {
            assert(share_value(us[i].range, us[j].range));
        } else if j < i {
            assert(share_value(us[j].range, us[i].range));
        }
    }
    assert forall|i: int, j: int| 0 <= i < rs.len() && 0 <= j < us.len() implies !(in_range(
        #[trigger] rs[i],
        x,
    ) && in_range(#[trigger] us[j].range, x)) by {
        if in_range(rs[i], x) && in_range(us[j].range, x) {
            assert(share_value(rs[i], us[j].range));
        }
    }
}

// =====================================================================
// Checking ranges as they are entered
// =====================================================================

/// The first report among the given ones.
pub open spec fn first_some(s: Seq<Option<OverlapModel>>) -> Option<OverlapModel>
    decreases s.len(),
{
    if s.len() == 0 {
        None
    } else if s[0] is Some {
        s[0]
    } else {
        first_some(s.drop_first())
    }
}

/// The reports of a new range against each existing range, in order.
pub open spec fn range_reports(new_range: RangeModel, existing: Seq<RangeModel>) -> Seq<Option<OverlapModel>> {
    existing.map_values(|e: RangeModel| range_range_overlap(new_range, e))
}

/// The reports of a new rule against each existing rule, then of each
/// existing standalone range against the new rule, in order.
pub open spec fn rule_reports(new_rule: RuleModel, rules: Seq<RuleModel>, ranges: Seq<RangeModel>) -> Seq<
    Option<OverlapModel>,
> {
    rules.map_values(|w: RuleModel| rule_rule_overlap(new_rule, w)) + ranges.map_values(
        |a: RangeModel| range_rule_overlap(a, new_rule),
    )
}

proof fn lemma_first_some_step(s: Seq<Option<OverlapModel>>, i: int)
    requires
        0 <= i < s.len(),
        s[i] is None,
    ensures
        first_some(s.subrange(i, s.len() as int)) == first_some(s.subrange(i + 1, s.len() as int)),
{
    assert(s.subrange(i, s.len() as int).drop_first() =~= s.subrange(i + 1, s.len() as int));
}

/// The first overlap of a newly entered range with the ranges entered
/// before it, if any.
pub fn first_range_overlap(new_range: &IntegerValidationRange, existing: &[IntegerValidationRange]) -> (r:
    Option<RangeOverlapDetails>)
    ensures
        overlap_view(r) == first_some(range_reports(new_range@, range_models(existing@))),
        r is None <==> forall|i: int|
            0 <= i < existing@.len() ==> !share_value(new_range@, #[trigger] existing@[i]@),
{
    let ghost s = range_reports(new_range@, range_models(existing@));
    let mut i: usize = 0;
    assert(s.subrange(0, s.len() as int) =~= s);
    while i < existing.len()
        invariant
            s == range_reports(new_range@, range_models(existing@)),
            s.len() == existing@.len(),
            i <= existing@.len(),
            first_some(s) == first_some(s.subrange(i as int, s.len() as int)),
            forall|j: int| 0 <= j < i ==> !share_value(new_range@, #[trigger] existing@[j]@),
        decreases existing@.len() - i,
    {
        let found = new_range.check_overlap_with_integer_range(&existing[i]);
        assert(s[i as int] == range_range_overlap(new_range@, existing@[i as int]@));
        match found {
            Some(d) => {
                assert(s.subrange(i as int, s.len() as int)[0] == s[i as int]);
                return Some(d);
            },
            None => {
                proof {
                    lemma_first_some_step(s, i as int);
                    lemma_meet_iff_common_value(new_range@, existing@[i as int]@);
                }
            },
        }
        i = i + 1;
    }
    assert(s.subrange(i as int, s.len() as int) =~= Seq::<Option<OverlapModel>>::empty());
    None
}

/// The first overlap of a newly entered rule with the rules entered before
/// it, then with the standalone ranges, if any.
#[verifier::spinoff_prover]
pub fn first_rule_overlap(
    new_rule: &IntegerStringValidationRule,
    existing_rules: &[IntegerStringValidationRule],
    existing_ranges: &[IntegerValidationRange],
) -> (r: Option<RangeOverlapDetails>)
    ensures
        overlap_view(r) == first_some(
            rule_reports(new_rule@, rule_models(existing_rules@), range_models(existing_ranges@)),
        ),
        r is None <==> (forall|i: int|
            0 <= i < existing_rules@.len() ==> !share_value(
                new_rule@.range,
                #[trigger] existing_rules@[i]@.range,
            )) && (forall|i: int|
            0 <= i < existing_ranges@.len() ==> !share_value(
                #[trigger] existing_ranges@[i]@,
                new_rule@.range,
            )),
{
    let ghost s = rule_reports(new_rule@, rule_models(existing_rules@), range_models(existing_ranges@));
    let ghost n = existing_rules@.len();
    let mut i: usize = 0;
    assert(s.subrange(0, s.len() as int) =~= s);
    while i < existing_rules.len()
        invariant
            s == rule_reports(new_rule@, rule_models(existing_rules@), range_models(existing_ranges@)),
            n == existing_rules@.len(),
            s.len() == n + existing_ranges@.len(),
            i <= n,
            first_some(s) == first_some(s.subrange(i as int, s.len() as int)),
            forall|j: int| 0 <= j < i ==> !share_value(new_rule@.range, #[trigger] existing_rules@[j]@.range),
        decreases n - i,
    {
        let found = new_rule.check_overlap_with_integer_string_rule(&existing_rules[i]);
        assert(s[i as int] == rule_rule_overlap(new_rule@, existing_rules@[i as int]@));
        match found {
            Some(d) => {
                assert(s.subrange(i as int, s.len() as int)[0] == s[i as int]);
                return Some(d);
            },
            None => {
                proof {
                    lemma_first_some_step(s, i as int);
                    lemma_meet_iff_common_value(new_rule@.range, existing_rules@[i as int]@.range);
                }
            },
        }
        i = i + 1;
    }
    let mut k: usize = 0;
    while k < existing_ranges.len()
        invariant
            s == rule_reports(new_rule@, rule_models(existing_rules@), range_models(existing_ranges@)),
            n == existing_rules@.len(),
            s.len() == n + existing_ranges@.len(),
            k <= existing_ranges@.len(),
            first_some(s) == first_some(s.subrange(n + k, s.len() as int)),
            forall|j: int| 0 <= j < n ==> !share_value(new_rule@.range, #[trigger] existing_rules@[j]@.range),
            forall|j: int| 0 <= j < k ==> !share_value(#[trigger] existing_ranges@[j]@, new_rule@.range),
        decreases existing_ranges@.len() - k,
    {
        let found = existing_ranges[k].check_overlap_with_integer_string_rule(new_rule);
        assert(s[n + k] == range_rule_overlap(existing_ranges@[k as int]@, new_rule@));
        match found {
            Some(d) => {
                assert(s.subrange(n + k, s.len() as int)[0] == s[n + k]);
                return Some(d);
            },
            None => {
                proof {
                    lemma_first_some_step(s, n + k);
                    lemma_meet_iff_common_value(existing_ranges@[k as int]@, new_rule@.range);
                }
            },
        }
        k = k + 1;
    }
    assert(s.subrange(n + k, s.len() as int) =~= Seq::<Option<OverlapModel>>::empty());
    None
}

/// Values shared by two ranges are shared in either order.
proof fn lemma_share_value_symmetric(a: RangeModel, b: RangeModel)
    ensures
        share_value(a, b) == share_value(b, a),
{
    if share_value(a, b) {
        let x = choose|x: int| in_range(a, x) && in_range(b, x);
        assert(in_range(b, x) && in_range(a, x));
    }
    if share_value(b, a) {
        let x = choose|x: int| in_range(b, x) && in_range(a, x);
        assert(in_range(a, x) && in_range(b, x));
    }
}

/// What entering a standalone range did.
pub enum RangeAdmission {
    /// The minimum is above the maximum; nothing was added.
    MinAboveMax,
    /// The range overlaps one entered before; nothing was added.
    Overlap(RangeOverlapDetails),
    /// The range was added.
    Added,
}

/// One step of entering standalone ranges: a range with its bounds out of
/// order is refused, one that overlaps a range entered before is refused
/// with the first such overlap, and any other is added.  Ranges entered
/// this way never share a value.
pub fn admit_range(ranges: &mut Vec<IntegerValidationRange>, minimum_value: i32, maximum_value: i32) -> (r:
    RangeAdmission)
    ensures
        minimum_value > maximum_value ==> (r is MinAboveMax && final(ranges)@ == old(ranges)@),
        minimum_value <= maximum_value ==> match first_some(
            range_reports(
                RangeModel { min: minimum_value, max: maximum_value },
                range_models(old(ranges)@),
            ),
        ) {
            Some(d) => r matches RangeAdmission::Overlap(x) && x@ == d && final(ranges)@ == old(
                ranges,
            )@,
            None => r is Added && range_models(final(ranges)@) == range_models(old(ranges)@).push(
                RangeModel { min: minimum_value, max: maximum_value },
            ),
        },
        unambiguous(range_models(old(ranges)@), Seq::<RuleModel>::empty()) ==> unambiguous(
            range_models(final(ranges)@),
            Seq::<RuleModel>::empty(),
        ),
{
    if minimum_value > maximum_value {
        return RangeAdmission::MinAboveMax;
    }
    let new_range = IntegerValidationRange::new(minimum_value, maximum_value);
    match first_range_overlap(&new_range, ranges.as_slice()) {
        Some(d) => RangeAdmission::Overlap(d),
        None => {
            let ghost old_models = range_models(ranges@);
            let ghost nm = new_range@;
            ranges.push(new_range);
            assert(range_models(ranges@) =~= old_models.push(nm));
            proof {
                let rs = range_models(ranges@);
                if unambiguous(old_models, Seq::<RuleModel>::empty()) {
                    assert forall|i: int, j: int| 0 <= i < j < rs.len() implies !#[trigger] share_value(
                        rs[i],
                        rs[j],
                    ) by {
                        if j == rs.len() - 1 {
                            assert(!share_value(nm, old_models[i]));
                            lemma_share_value_symmetric(nm, old_models[i]);
                        } else {
                            assert(share_value(old_models[i], old_models[j]) == share_value(rs[i], rs[j]));
                        }
                    }
                }
            }
            RangeAdmission::Added
        },
    }
}

/// A range with the given bounds, when they are in order.
pub fn bounded_range(minimum_value: i32, maximum_value: i32) -> (r: Option<IntegerValidationRange>)
    ensures
        r is Some <==> minimum_value <= maximum_value,
        r matches Some(x) ==> x@ == (RangeModel { min: minimum_value, max: maximum_value }),
{
    if minimum_value > maximum_value {
        None
    } else {
        Some(IntegerValidationRange::new(minimum_value, maximum_value))
    }
}

/// One step of entering integer-string rules: a rule that overlaps a rule
/// entered before, or a standalone range, is refused with the first such
/// overlap (`Some`); any other is added (`None`).  Rules entered this way
/// share no value with each other or with the standalone ranges.
pub fn admit_rule(
    rules: &mut Vec<IntegerStringValidationRule>,
    existing_ranges: &[IntegerValidationRange],
    new_rule: IntegerStringValidationRule,
) -> (r: Option<RangeOverlapDetails>)
    ensures
        overlap_view(r) == first_some(
            rule_reports(new_rule@, rule_models(old(rules)@), range_models(existing_ranges@)),
        ),
        r is Some ==> final(rules)@ == old(rules)@,
        r is None ==> rule_models(final(rules)@) == rule_models(old(rules)@).push(new_rule@),
        unambiguous(range_models(existing_ranges@), rule_models(old(rules)@)) ==> unambiguous(
            range_models(existing_ranges@),
            rule_models(final(rules)@),
        ),
{
    match first_rule_overlap(&new_rule, rules.as_slice(), existing_ranges) {
        Some(d) => Some(d),
        None => {
            let ghost old_models = rule_models(rules@);
            let ghost nm = new_rule@;
            rules.push(new_rule);
            assert(rule_models(rules@) =~= old_models.push(nm));
            proof {
                let us = rule_models(rules@);
                let rs = range_models(existing_ranges@);
                if unambiguous(rs, old_models) {
                    assert forall|i: int, j: int| 0 <= i < j < us.len() implies !#[trigger] share_value(
                        us[i].range,
                        us[j].range,
                    ) by {
                        if j == us.len() - 1 {
                            assert(!share_value(nm.range, old_models[i].range));
                            lemma_share_value_symmetric(nm.range, old_models[i].range);
                        } else {
                            assert(share_value(old_models[i].range, old_models[j].range) == share_value(
                                us[i].range,
                                us[j].range,
                            ));
                        }
                    }
                    assert forall|i: int, j: int| 0 <= i < rs.len() && 0 <= j < us.len() implies !#[trigger] share_value(
                        rs[i],
                        us[j].range,
                    ) by {
                        if j == us.len() - 1 {
                            assert(!share_value(existing_ranges@[i]@, nm.range));
                        } else {
                            assert(us[j] == old_models[j]);
                        }
                    }
                }
            }
            None
        },
    }
}

// =====================================================================
// Configurations
// =====================================================================

/// The views of a configuration's parts.
pub open spec fn config_model(
    ranges: Seq<IntegerValidationRange>,
    rules: Seq<IntegerStringValidationRule>,
    name: Option<String>,
) -> ConfigModel {
    ConfigModel {
        ranges: range_models(ranges),
        rules: rule_models(rules),
        name: match name {
            Some(n) => Some(n@),
            None => None,
        },
    }
}

/// A set of validation rules with an optional name.
#[derive(Debug)]
pub struct ValidationConfiguration {
    integer_ranges: Vec<IntegerValidationRange>,
    integer_string_rules: Vec<IntegerStringValidationRule>,
    configuration_name: Option<String>,
}

impl View for ValidationConfiguration {
    type V = ConfigModel;

    closed spec fn view(&self) -> ConfigModel {
        config_model(self.integer_ranges@, self.integer_string_rules@, self.configuration_name)
    }
}

impl Clone for ValidationConfiguration {
    fn clone(&self) -> (c: Self)
        ensures
            c@ == self@,
    {
        let configuration_name = match &self.configuration_name {
            Some(n) => Some(n.clone()),
            None => None,
        };
        ValidationConfiguration {
            integer_ranges: clone_ranges(&self.integer_ranges),
            integer_string_rules: clone_rules(&self.integer_string_rules),
            configuration_name,
        }
    }
}

impl ValidationConfiguration {
    /// The configuration of the given parts, when its ranges do not
    /// overlap; otherwise the overlap error.
    pub fn new(
        integer_ranges: Vec<IntegerValidationRange>,
        integer_string_rules: Vec<IntegerStringValidationRule>,
        configuration_name: Option<String>,
    ) -> (r: Result<Self, ValidationError>)
        ensures
            match detection_result(range_models(integer_ranges@), rule_models(integer_string_rules@)) {
                Ok(_) => r matches Ok(c) && c@ == config_model(
                    integer_ranges@,
                    integer_string_rules@,
                    configuration_name,
                ),
                Err(e) => r matches Err(f) && f@ == e,
            },
            r is Ok <==> unambiguous(range_models(integer_ranges@), rule_models(integer_string_rules@)),
    {
        match ValidationRangeOverlapDetector::detect_all_range_overlaps(
            integer_ranges.as_slice(),
            integer_string_rules.as_slice(),
        ) {
            Err(e) => Err(e),
            Ok(()) => Ok(ValidationConfiguration { integer_ranges, integer_string_rules, configuration_name }),
        }
    }

    /// The configuration of the given parts, unchecked.
    pub(crate) fn new_without_overlap_validation(
        integer_ranges: Vec<IntegerValidationRange>,
        integer_string_rules: Vec<IntegerStringValidationRule>,
        configuration_name: Option<String>,
    ) -> (c: Self)
        ensures
            c@ == config_model(integer_ranges@, integer_string_rules@, configuration_name),
    {
        ValidationConfiguration { integer_ranges, integer_string_rules, configuration_name }
    }

    /// Checks the configuration's ranges for overlaps.
    pub fn validate_configuration_for_overlaps(&self) -> (r: Result<(), ValidationError>)
        ensures
            match detection_result(self@.ranges, self@.rules) {
                Ok(_) => r is Ok,
                Err(e) => r matches Err(f) && f@ == e,
            },
            r is Ok <==> unambiguous(self@.ranges, self@.rules),
    {
        ValidationRangeOverlapDetector::detect_all_range_overlaps(
            self.integer_ranges.as_slice(),
            self.integer_string_rules.as_slice(),
        )
    }

    /// The standalone integer ranges.
    pub fn get_integer_ranges(&self) -> (v: &Vec<IntegerValidationRange>)
        ensures
            range_models(v@) == self@.ranges,
    {
        &self.integer_ranges
    }

    /// The integer-string rules.
    pub fn get_integer_string_rules(&self) -> (v: &Vec<IntegerStringValidationRule>)
        ensures
            rule_models(v@) == self@.rules,
    {
        &self.integer_string_rules
    }

    /// The configuration's name, if it has one.
    pub fn get_configuration_name(&self) -> (n: Option<&String>)
        ensures
            match n {
                Some(s) => self@.name == Some(s@),
                None => self@.name is None,
            },
    {
        match &self.configuration_name {
            Some(s) => Some(s),
            None => None,
        }
    }
}

/// A copy of a list of ranges.
fn clone_ranges(v: &Vec<IntegerValidationRange>) -> (out: Vec<IntegerValidationRange>)
    ensures
        range_models(out@) == range_models(v@),
{
    let mut out: Vec<IntegerValidationRange> = Vec::new();
    let mut i: usize = 0;
    while i < v.len()
        invariant
            i <= v@.len(),
            range_models(out@) == range_models(v@).subrange(0, i as int),
        decreases v@.len() - i,
    {
        let ghost prev = out@;
        let c = v[i].clone();
        out.push(c);
        assert(range_models(out@) =~= range_models(prev).push(v@[i as int]@));
        assert(range_models(v@).subrange(0, i + 1) =~= range_models(v@).subrange(0, i as int).push(v@[i as int]@));
        i = i + 1;
    }
    assert(range_models(v@).subrange(0, v@.len() as int) =~= range_models(v@));
    out
}

/// A copy of a list of rules.
fn clone_rules(v: &Vec<IntegerStringValidationRule>) -> (out: Vec<IntegerStringValidationRule>)
    ensures
        rule_models(out@) == rule_models(v@),
{
    let mut out: Vec<IntegerStringValidationRule> = Vec::new();
    let mut i: usize = 0;
    while i < v.len()
        invariant
            i <= v@.len(),
            rule_models(out@) == rule_models(v@).subrange(0, i as int),
        decreases v@.len() - i,
    {
        let ghost prev = out@;
        let c = v[i].clone();
        out.push(c);
        assert(rule_models(out@) =~= rule_models(prev).push(v@[i as int]@));
        assert(rule_models(v@).subrange(0, i + 1) =~= rule_models(v@).subrange(0, i as int).push(v@[i as int]@));
        i = i + 1;
    }
    assert(rule_models(v@).subrange(0, v@.len() as int) =~= rule_models(v@));
    out
}

// =====================================================================
// The validation engine
// =====================================================================

/// The rules an engine checks inputs against.
pub struct EngineModel {
    pub ranges: Seq<RangeModel>,
    pub rules: Seq<RuleModel>,
}

/// Whether an integer lies in one of the ranges.
pub open spec fn accepted_integer(rs: Seq<RangeModel>, x: int) -> bool {
    exists|i: int| 0 <= i < rs.len() && in_range(#[trigger] rs[i], x)
}

/// Whether a pair satisfies one of the rules.
pub open spec fn accepted_pair(us: Seq<RuleModel>, x: int, byte_len: int) -> bool {
    exists|i: int| 0 <= i < us.len() && rule_accepts(#[trigger] us[i], x, byte_len)
}

/// What checking a text as a standalone integer answers.
pub open spec fn standalone_result(e: EngineModel, input: Seq<char>) -> Result<bool, ErrorModel> {
    match parse_i32(input) {
        Err(k) => Err(ErrorModel::Parse(int_error_message(k))),
        Ok(x) => Ok(accepted_integer(e.ranges, x)),
    }
}

/// The integer part of a pair with surrounding braces removed.
pub open spec fn clean_integer_part(s: Seq<char>) -> Seq<char> {
    strip_both(s, CharClass::EitherOf('{', '}'))
}

/// The string part of a pair with surrounding quotes removed.
pub open spec fn clean_string_part(s: Seq<char>) -> Seq<char> {
    strip_both(s, CharClass::EitherOf('\'', '"'))
}

/// What checking two texts as an integer-string pair answers.
pub open spec fn pair_result(e: EngineModel, integer_part: Seq<char>, string_part: Seq<char>) -> Result<
    bool,
    ErrorModel,
> {
    match parse_i32(clean_integer_part(integer_part)) {
        Err(k) => Err(ErrorModel::Parse(int_error_message(k))),
        Ok(x) => Ok(accepted_pair(e.rules, x, byte_len(clean_string_part(string_part)))),
    }
}

/// Whether an input is valid: it is an accepted standalone integer, or it
/// has exactly one `:` and its trimmed halves form an accepted pair.
pub open spec fn input_valid(e: EngineModel, input: Seq<char>) -> bool {
    let parts = split_on(input, ':');
    ||| standalone_result(e, input) == Ok::<bool, ErrorModel>(true)
    ||| parts.len() == 2 && pair_result(e, trim(parts[0]), trim(parts[1])) == Ok::<bool, ErrorModel>(
        true,
    )
}

pub open spec fn status_of(b: bool) -> ValidationStatus {
    if b {
        ValidationStatus::Valid
    } else {
        ValidationStatus::Invalid
    }
}

/// The validation status of an input.
pub open spec fn input_status(e: EngineModel, input: Seq<char>) -> ValidationStatus {
    status_of(input_valid(e, input))
}

/// Whether `k` is the key of one of the entries.
pub open spec fn has_key(entries: Seq<(Seq<char>, ValidationStatus)>, k: Seq<char>) -> bool {
    exists|i: int| 0 <= i < entries.len() && (#[trigger] entries[i]).0 == k
}

/// The results for the first `n` inputs: each distinct trimmed input once,
/// in order of first appearance, with its status.
pub open spec fn result_entries(e: EngineModel, inputs: Seq<Seq<char>>, n: int) -> Seq<
    (Seq<char>, ValidationStatus),
>
    decreases n,
{
    if n <= 0 {
        Seq::<(Seq<char>, ValidationStatus)>::empty()
    } else {
        let prev = result_entries(e, inputs, n - 1);
        let k = trim(inputs[n - 1]);
        if has_key(prev, k) {
            prev
        } else {
            prev.push((k, input_status(e, k)))
        }
    }
}

/// The views of a sequence of strings.
pub open spec fn string_views(v: Seq<String>) -> Seq<Seq<char>> {
    v.map_values(|s: String| s@)
}

/// The views of result entries.
pub open spec fn entry_views(v: Seq<(String, ValidationStatus)>) -> Seq<(Seq<char>, ValidationStatus)> {
    v.map_values(|p: (String, ValidationStatus)| (p.0@, p.1))
}

/// Checks inputs against non-overlapping integer ranges and
/// integer-string rules.
#[derive(Debug)]
pub struct InputValidationEngine {
    integer_validation_ranges: Vec<IntegerValidationRange>,
    integer_string_validation_rules: Vec<IntegerStringValidationRule>,
}

impl View for InputValidationEngine {
    type V = EngineModel;

    closed spec fn view(&self) -> EngineModel {
        EngineModel {
            ranges: range_models(self.integer_validation_ranges@),
            rules: rule_models(self.integer_string_validation_rules@),
        }
    }
}

impl InputValidationEngine {
    /// The engine for the given rules, when their ranges do not overlap;
    /// otherwise the overlap error.
    pub fn new(
        integer_validation_ranges: Vec<IntegerValidationRange>,
        integer_string_validation_rules: Vec<IntegerStringValidationRule>,
    ) -> (r: Result<Self, ValidationError>)
        ensures
            match detection_result(
                range_models(integer_validation_ranges@),
                rule_models(integer_string_validation_rules@),
            ) {
                Ok(_) => r matches Ok(e) && e@ == (EngineModel {
                    ranges: range_models(integer_validation_ranges@),
                    rules: rule_models(integer_string_validation_rules@),
                }),
                Err(e) => r matches Err(f) && f@ == e,
            },
            r is Ok <==> unambiguous(
                range_models(integer_validation_ranges@),
                rule_models(integer_string_validation_rules@),
            ),
    {
        match ValidationRangeOverlapDetector::detect_all_range_overlaps(
            integer_validation_ranges.as_slice(),
            integer_string_validation_rules.as_slice(),
        ) {
            Err(e) => Err(e),
            Ok(()) => Ok(InputValidationEngine { integer_validation_ranges, integer_string_validation_rules }),
        }
    }

    /// The engine for a configuration's rules (not checked again).
    pub fn from_configuration(configuration: &ValidationConfiguration) -> (e: Self)
        ensures
            e@ == (EngineModel { ranges: configuration@.ranges, rules: configuration@.rules }),
    {
        InputValidationEngine {
            integer_validation_ranges: clone_ranges(&configuration.integer_ranges),
            integer_string_validation_rules: clone_rules(&configuration.integer_string_rules),
        }
    }

    /// The engine's rules as a configuration with the given name, checked
    /// for overlaps.
    pub fn to_configuration(&self, configuration_name: Option<String>) -> (r: Result<
        ValidationConfiguration,
        ValidationError,
    >)
        ensures
            match detection_result(self@.ranges, self@.rules) {
                Ok(_) => r matches Ok(c) && c@ == (ConfigModel {
                    ranges: self@.ranges,
                    rules: self@.rules,
                    name: match configuration_name {
                        Some(n) => Some(n@),
                        None => None,
                    },
                }),
                Err(e) => r matches Err(f) && f@ == e,
            },
            r is Ok <==> unambiguous(self@.ranges, self@.rules),
    {
        ValidationConfiguration::new(
            clone_ranges(&self.integer_validation_ranges),
            clone_rules(&self.integer_string_validation_rules),
            configuration_name,
        )
    }

    /// Parses `input` as an `i32` and tells whether a range holds it.
    fn validate_standalone_integer(&self, input: &[char]) -> (r: Result<bool, ValidationError>)
        ensures
            match standalone_result(self@, input@) {
                Ok(b) => r == Ok::<bool, ValidationError>(b),
                Err(m) => r matches Err(f) && f@ == m,
            },
    {
        let parsed = match parse_i32_chars(input) {
            Err(k) => return Err(ValidationError::from_int_error(&k)),
            Ok(v) => v,
        };
        let ghost rs = self@.ranges;
        let mut i: usize = 0;
        while i < self.integer_validation_ranges.len()
            invariant
                rs == range_models(self.integer_validation_ranges@),
                rs == self@.ranges,
                parse_i32(input@) == Ok::<int, IntErrorKind>(parsed as int),
                i <= rs.len(),
                forall|j: int| 0 <= j < i ==> !in_range(#[trigger] rs[j], parsed as int),
            decreases rs.len() - i,
        {
            assert(rs[i as int] == self.integer_validation_ranges@[i as int]@);
            if self.integer_validation_ranges[i].contains_value(parsed) {
                return Ok(true);
            }
            i = i + 1;
        }
        Ok(false)
    }

    /// Parses the brace-stripped integer part and tells whether a rule
    /// accepts it with the quote-stripped string part.
    fn validate_integer_string_pair(&self, integer_part: &[char], string_part: &[char]) -> (r: Result<
        bool,
        ValidationError,
    >)
        ensures
            match pair_result(self@, integer_part@, string_part@) {
                Ok(b) => r == Ok::<bool, ValidationError>(b),
                Err(m) => r matches Err(f) && f@ == m,
            },
    {
        let cleaned_integer_part = strip_both_chars(integer_part, &CharClass::EitherOf('{', '}'));
        let cleaned_string_chars = strip_both_chars(string_part, &CharClass::EitherOf('\'', '"'));
        let cleaned_string_part = string_of(cleaned_string_chars.as_slice());
        let parsed = match parse_i32_chars(cleaned_integer_part.as_slice()) {
            Err(k) => return Err(ValidationError::from_int_error(&k)),
            Ok(v) => v,
        };
        let ghost us = self@.rules;
        let ghost blen = byte_len(clean_string_part(string_part@));
        let mut i: usize = 0;
        while i < self.integer_string_validation_rules.len()
            invariant
                us == rule_models(self.integer_string_validation_rules@),
                us == self@.rules,
                parse_i32(clean_integer_part(integer_part@)) == Ok::<int, IntErrorKind>(parsed as int),
                cleaned_string_part@ == clean_string_part(string_part@),
                blen == byte_len(clean_string_part(string_part@)),
                i <= us.len(),
                forall|j: int| 0 <= j < i ==> !rule_accepts(#[trigger] us[j], parsed as int, blen),
            decreases us.len() - i,
        {
            assert(us[i as int] == self.integer_string_validation_rules@[i as int]@);
            if self.integer_string_validation_rules[i].validate_pair(parsed, cleaned_string_part.as_str()) {
                return Ok(true);
            }
            i = i + 1;
        }
        Ok(false)
    }

    /// The status of one input.
    pub fn validate_single_input(&self, input_string: &str) -> (s: ValidationStatus)
        ensures
            s == input_status(self@, input_string@),
    {
        let input = chars_of(input_string);
        self.status_of_chars(input.as_slice())
    }

    fn status_of_chars(&self, input: &[char]) -> (s: ValidationStatus)
        ensures
            s == input_status(self@, input@),
    {
        if let Ok(true) = self.validate_standalone_integer(input) {
            return ValidationStatus::Valid;
        }
        let parts = split_chars(input, ':');
        assert(texts(parts@).len() == parts@.len());
        if parts.len() == 2 {
            assert(texts(parts@)[0] == parts@[0]@);
            assert(texts(parts@)[1] == parts@[1]@);
            let integer_part = trim_chars(parts[0].as_slice());
            let string_part = trim_chars(parts[1].as_slice());
            if let Ok(true) = self.validate_integer_string_pair(integer_part.as_slice(), string_part.as_slice()) {
                return ValidationStatus::Valid;
            }
        }
        ValidationStatus::Invalid
    }

    /// The status of each distinct trimmed input, in order of first
    /// appearance.
    pub fn validate_multiple_inputs(&self, input_strings: &[String]) -> (out: Vec<(String, ValidationStatus)>)
        ensures
            entry_views(out@) == result_entries(self@, string_views(input_strings@), input_strings@.len() as int),
    {
        let ghost ins = string_views(input_strings@);
        let mut out: Vec<(String, ValidationStatus)> = Vec::new();
        let mut keys: Vec<Vec<char>> = Vec::new();
        let mut i: usize = 0;
        while i < input_strings.len()
            invariant
                ins == string_views(input_strings@),
                i <= input_strings@.len(),
                entry_views(out@) == result_entries(self@, ins, i as int),
                texts(keys@).len() == out@.len(),
                forall|j: int| 0 <= j < out@.len() ==> #[trigger] texts(keys@)[j] == entry_views(out@)[j].0,
            decreases input_strings@.len() - i,
        {
            let ghost prev = entry_views(out@);
            let raw = chars_of(input_strings[i].as_str());
            assert(raw@ == ins[i as int]);
            let trimmed = trim_chars(raw.as_slice());
            let mut found = false;
            let mut j: usize = 0;
            while j < keys.len()
                invariant
                    texts(keys@).len() == prev.len(),
                    forall|t: int| 0 <= t < prev.len() ==> #[trigger] texts(keys@)[t] == prev[t].0,
                    j <= keys@.len(),
                    found <==> exists|t: int| 0 <= t < j && (#[trigger] prev[t]).0 == trimmed@,
                decreases keys@.len() - j,
            {
                assert(texts(keys@)[j as int] == keys@[j as int]@);
                if same_chars(keys[j].as_slice(), trimmed.as_slice()) {
                    found = true;
                }
                j = j + 1;
            }
            assert(found <==> has_key(prev, trimmed@));
            if !found {
                let status = self.status_of_chars(trimmed.as_slice());
                let key = string_of(trimmed.as_slice());
                out.push((key, status));
                let ghost prev_keys = texts(keys@);
                let ghost t = trimmed@;
                keys.push(trimmed);
                assert(entry_views(out@) =~= prev.push((trim(ins[i as int]), input_status(self@, trim(ins[i as int])))));
                assert(texts(keys@) =~= prev_keys.push(t));
                assert forall|j: int| 0 <= j < out@.len() implies #[trigger] texts(keys@)[j] == entry_views(out@)[j].0 by {
                    if j < prev.len() {
                        assert(prev_keys[j] == prev[j].0);
                    }
                }
            }
            i = i + 1;
        }
        out
    }
}

/// The results of checking several inputs form a map from inputs to
/// statuses: each trimmed input has an entry, no two entries have the same
/// input, every entry belongs to one of the inputs, and each entry holds
/// the status of its input.
pub proof fn lemma_result_entries_map(e: EngineModel, inputs: Seq<Seq<char>>, n: int)
    requires
        0 <= n <= inputs.len(),
    ensures
        forall|i: int, j: int|
            0 <= i < j < result_entries(e, inputs, n).len() ==> (#[trigger] result_entries(
                e,
                inputs,
                n,
            )[i]).0 != (#[trigger] result_entries(e, inputs, n)[j]).0,
        forall|i: int| 0 <= i < n ==> has_key(result_entries(e, inputs, n), #[trigger] trim(inputs[i])),
        forall|j: int|
            0 <= j < result_entries(e, inputs, n).len() ==> (#[trigger] result_entries(
                e,
                inputs,
                n,
            )[j]).1 == input_status(e, result_entries(e, inputs, n)[j].0),
        forall|j: int|
            0 <= j < result_entries(e, inputs, n).len() ==> exists|i: int|
                0 <= i < n && #[trigger] trim(inputs[i]) == (#[trigger] result_entries(
                    e,
                    inputs,
                    n,
                )[j]).0,
    decreases n,
{
    if n > 0 {
        lemma_result_entries_map(e, inputs, n - 1);
        let prev = result_entries(e, inputs, n - 1);
        let k = trim(inputs[n - 1]);
        let es = result_entries(e, inputs, n);
        if has_key(prev, k) {
            assert(es == prev);
            assert forall|i: int| 0 <= i < n implies has_key(es, #[trigger] trim(inputs[i])) by {
                if i < n - 1 {
                    assert(has_key(prev, trim(inputs[i])));
                }
            }
            assert forall|j: int| 0 <= j < es.len() implies exists|i: int|
                0 <= i < n && #[trigger] trim(inputs[i]) == (#[trigger] es[j]).0 by {
                let i = choose|i: int| 0 <= i < n - 1 && #[trigger] trim(inputs[i]) == prev[j].0;
                assert(trim(inputs[i]) == es[j].0);
            }
        } else {
            assert(es == prev.push((k, input_status(e, k))));
            assert forall|i: int, j: int| 0 <= i < j < es.len() implies (#[trigger] es[i]).0 != (
            #[trigger] es[j]).0 by {
                if j == es.len() - 1 {
                    assert(es[i] == prev[i]);
                    if prev[i].0 == k {
                        assert(has_key(prev, k));
                    }
                } else {
                    assert(es[i] == prev[i] && es[j] == prev[j]);
                }
            }
            assert forall|i: int| 0 <= i < n implies has_key(es, #[trigger] trim(inputs[i])) by {
                if i < n - 1 {
                    assert(has_key(prev, trim(inputs[i])));
                    let t = choose|t: int| 0 <= t < prev.len() && (#[trigger] prev[t]).0 == trim(inputs[i]);
                    assert(es[t] == prev[t]);
                } else {
                    assert(es[es.len() - 1].0 == k);
                }
            }
            assert forall|j: int| 0 <= j < es.len() implies (#[trigger] es[j]).1 == input_status(
                e,
                es[j].0,
            ) by {
                if j < prev.len() {
                    assert(es[j] == prev[j]);
                }
            }
            assert forall|j: int| 0 <= j < es.len() implies exists|i: int|
                0 <= i < n && #[trigger] trim(inputs[i]) == (#[trigger] es[j]).0 by {
                if j < prev.len() {
                    assert(es[j] == prev[j]);
                    let i = choose|i: int| 0 <= i < n - 1 && #[trigger] trim(inputs[i]) == prev[j].0;
                    assert(trim(inputs[i]) == es[j].0);
                } else {
                    assert(trim(inputs[n - 1]) == es[j].0);
                }
            }
        }
    }
}

/// What makes an input valid: it is an `i32` lying in one of the
/// standalone ranges, or it has exactly one `:` and some rule, whichever
/// it is, holds the `i32` before the colon (trimmed, braces around it
/// removed) in its range and allows the text after the colon (trimmed,
/// quotes around it removed) by its UTF-8 length.  Every other input is
/// invalid.
pub proof fn lemma_input_status_meaning(e: EngineModel, input: Seq<char>)
    ensures
        input_status(e, input) == ValidationStatus::Valid <==> ((parse_i32(input) is Ok
            && exists|k: int|
            0 <= k < e.ranges.len() && (#[trigger] e.ranges[k]).min <= parse_i32(input)->Ok_0
                <= e.ranges[k].max) || (split_on(input, ':').len() == 2 && parse_i32(
            strip_both(trim(split_on(input, ':')[0]), CharClass::EitherOf('{', '}')),
        ) is Ok && exists|k: int|
            0 <= k < e.rules.len() && (#[trigger] e.rules[k]).range.min <= parse_i32(
                strip_both(trim(split_on(input, ':')[0]), CharClass::EitherOf('{', '}')),
            )->Ok_0 <= e.rules[k].range.max && vstd::utf8::encode_utf8(
                strip_both(trim(split_on(input, ':')[1]), CharClass::EitherOf('\'', '"')),
            ).len() <= e.rules[k].max_len)),
        input_status(e, input) == ValidationStatus::Valid || input_status(e, input)
            == ValidationStatus::Invalid,
{
    let parts = split_on(input, ':');
    match parse_i32(input) {
        Ok(x) => {
            if exists|k: int| 0 <= k < e.ranges.len() && (#[trigger] e.ranges[k]).min <= x <= e.ranges[k].max {
                let k = choose|k: int| 0 <= k < e.ranges.len() && (#[trigger] e.ranges[k]).min <= x <= e.ranges[k].max;
                assert(in_range(e.ranges[k], x));
            }
        },
        Err(_) => {},
    }
    if parts.len() == 2 {
        let ip = clean_integer_part(trim(parts[0]));
        let sp = clean_string_part(trim(parts[1]));
        match parse_i32(ip) {
            Ok(x) => {
                if exists|k: int|
                    0 <= k < e.rules.len() && (#[trigger] e.rules[k]).range.min <= x <= e.rules[k].range.max
                        && vstd::utf8::encode_utf8(sp).len() <= e.rules[k].max_len {
                    let k = choose|k: int|
                        0 <= k < e.rules.len() && (#[trigger] e.rules[k]).range.min <= x <= e.rules[k].range.max
                            && vstd::utf8::encode_utf8(sp).len() <= e.rules[k].max_len;
                    assert(rule_accepts(e.rules[k], x, byte_len(sp)));
                }
            },
            Err(_) => {},
        }
    }
}

/// Whether two character sequences are equal.
pub fn same_chars(a: &[char], b: &[char]) -> (r: bool)
    ensures
        r == (a@ == b@),
{
    if a.len() != b.len() {
        return false;
    }
    let mut i: usize = 0;
    while i < a.len()
        invariant
            a@.len() == b@.len(),
            i <= a@.len(),
            forall|j: int| 0 <= j < i ==> a@[j] == b@[j],
        decreases a@.len() - i,
    {
        if a[i] != b[i] {
            return false;
        }
        i = i + 1;
    }
    assert(a@ =~= b@);
    true
}

/// The trimmed, non-empty pieces of a comma-separated line.
pub open spec fn comma_items(parts: Seq<Seq<char>>) -> Seq<Seq<char>>
    decreases parts.len(),
{
    if parts.len() == 0 {
        Seq::<Seq<char>>::empty()
    } else {
        let prev = comma_items(parts.drop_last());
        let t = trim(parts.last());
        if t.len() > 0 {
            prev.push(t)
        } else {
            prev
        }
    }
}

/// Splits a line at commas, trims each piece and drops empty ones.
pub fn parse_comma_separated_inputs(input_line: &str) -> (out: Vec<String>)
    ensures
        string_views(out@) == comma_items(split_on(input_line@, ',')),
{
    let line = chars_of(input_line);
    let parts = split_chars(line.as_slice(), ',');
    let ghost ps = texts(parts@);
    let mut out: Vec<String> = Vec::new();
    let mut i: usize = 0;
    while i < parts.len()
        invariant
            ps == texts(parts@),
            i <= parts@.len(),
            string_views(out@) == comma_items(ps.subrange(0, i as int)),
        decreases parts@.len() - i,
    {
        assert(ps.subrange(0, i + 1).drop_last() =~= ps.subrange(0, i as int));
        assert(ps[i as int] == parts@[i as int]@);
        let t = trim_chars(parts[i].as_slice());
        let ghost prev = string_views(out@);
        if t.len() > 0 {
            out.push(string_of(t.as_slice()));
            assert(string_views(out@) =~= prev.push(t@));
        }
        i = i + 1;
    }
    assert(ps.subrange(0, parts@.len() as int) =~= ps);
    out
}

} // verus!
