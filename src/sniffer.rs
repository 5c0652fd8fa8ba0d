//! Heuristic detection of a column's semantic type from sample values.
//!
//! Each sample is trimmed; empty values, `-` and `null` (in any case) are
//! skipped. Every other sample scores for each type whose test it passes, and
//! the detected type is the first, in `detect_order`, whose score is the
//! largest and reaches four fifths of all samples.
use crate::column::DataType;
use crate::names::views;
use vstd::prelude::*;

verus! {

/// An ISO date, `yyyy-mm-dd`.
pub const RE_DATE_ISO: &'static str = "^\\d{4}-\\d{2}-\\d{2}$";

/// A dotted date, `dd.mm.yyyy`.
pub const RE_DATE_TR: &'static str = "^\\d{2}\\.\\d{2}\\.\\d{4}$";

/// An e-mail address.
pub const RE_EMAIL: &'static str = "^[a-zA-Z0-9._%+-]+@[a-zA-Z0-9.-]+\\.[a-zA-Z]{2,}$";

/// A phone number with the `90` country code.
pub const RE_PHONE: &'static str = "^\\+?90\\s?[\\d\\s\\-\\(\\)]+$";

/// An amount that starts with a currency sign.
pub const RE_CURRENCY: &'static str = "^[\u{20BA}$\u{20AC}\u{00A3}]";

/// A dotted IPv4 address.
pub const RE_IP: &'static str = "^\\d{1,3}\\.\\d{1,3}\\.\\d{1,3}\\.\\d{1,3}$";

/// An http or https URL.
pub const RE_URL: &'static str = "^https?://";

/// Whether the `regex` crate compiles `pattern` and finds a match of it in `s`.
pub uninterp spec fn regex_match_of(pattern: Seq<char>, s: Seq<char>) -> bool;

/// The lowercase form of a text, as `str::to_lowercase` gives it.
pub uninterp spec fn lower_of(s: Seq<char>) -> Seq<char>;

/// Relies on `regex::Regex::new` and `regex::Regex::is_match`: whether the
/// pattern compiles and matches somewhere in `s` (a pattern that does not
/// compile matches nothing).
#[verifier::external_body]
fn regex_matches(pattern: &str, s: &str) -> (r: bool)
    ensures
        r == regex_match_of(pattern@, s@),
{
    match regex::Regex::new(pattern) {
        Ok(re) => re.is_match(s),
        Err(_) => false,
    }
}

/// Relies on `str::to_lowercase`.
#[verifier::external_body]
fn lowercase(s: &str) -> (r: String)
    ensures
        r@ == lower_of(s@),
{
    s.to_lowercase()
}

/// Whether `c` has the Unicode White_Space property.
pub open spec fn is_white_space(c: char) -> bool {
    let u = c as u32;
    (9 <= u && u <= 13) || u == 0x20 || u == 0x85 || u == 0xA0 || u == 0x1680 || (0x2000 <= u && u <= 0x200A)
        || u == 0x2028 || u == 0x2029 || u == 0x202F || u == 0x205F || u == 0x3000
}

/// Whether `c` has the Unicode White_Space property.
fn white_space(c: char) -> (r: bool)
    ensures
        r == is_white_space(c),
{
    let u = c as u32;
    (9 <= u && u <= 13) || u == 0x20 || u == 0x85 || u == 0xA0 || u == 0x1680 || (0x2000 <= u && u <= 0x200A)
        || u == 0x2028 || u == 0x2029 || u == 0x202F || u == 0x205F || u == 0x3000
}

/// `s` without its leading white space.
pub open spec fn trim_start(s: Seq<char>) -> Seq<char>
    decreases s.len(),
{
    if s.len() > 0 && is_white_space(s[0]) {
        trim_start(s.drop_first())
    } else {
        s
    }
}

/// `s` without its trailing white space.
pub open spec fn trim_end(s: Seq<char>) -> Seq<char>
    decreases s.len(),
{
    if s.len() > 0 && is_white_space(s.last()) {
        trim_end(s.drop_last())
    } else {
        s
    }
}

/// `s` without leading and trailing white space.
pub open spec fn trim_of(s: Seq<char>) -> Seq<char> {
    trim_end(trim_start(s))
}

/// `s` without leading and trailing white space.
fn trimmed(s: &str) -> (r: String)
    ensures
        r@ == trim_of(s@),
{
    let n = s.unicode_len();
    let mut a: usize = 0;
    let mut done = false;
    assert(s@.subrange(0, n as int) =~= s@);
    while !done && a < n
        invariant
            n == s@.len(),
            a <= n,
            trim_start(s@) == trim_start(s@.subrange(a as int, n as int)),
            done ==> a < n && !is_white_space(s@[a as int]),
        decreases n - a + if done { 0int } else { 1int },
    {
        if white_space(s.get_char(a)) {
            assert(s@.subrange(a as int, n as int).drop_first() =~= s@.subrange(a as int + 1, n as int));
            a = a + 1;
        } else {
            done = true;
        }
    }
    assert(s@.subrange(0, n as int) =~= s@);
    let ghost t = s@.subrange(a as int, n as int);
    assert(trim_start(t) == t) by {
        if a == n {
        } else {
            assert(t[0] == s@[a as int]);
        }
    }
    let mut b: usize = n;
    done = false;
    while !done && b > a
        invariant
            n == s@.len(),
            a <= b <= n,
            trim_end(t) == trim_end(s@.subrange(a as int, b as int)),
            t == s@.subrange(a as int, n as int),
            done ==> a < b && !is_white_space(s@[b - 1]),
        decreases b + if done { 0int } else { 1int },
    {
        if white_space(s.get_char(b - 1)) {
            assert(s@.subrange(a as int, b as int).drop_last() =~= s@.subrange(a as int, b - 1));
            b = b - 1;
        } else {
            done = true;
        }
    }
    let u = s.substring_char(a, b);
    proof {
        let w = s@.subrange(a as int, b as int);
        if a < b {
            assert(w.last() == s@[b - 1]);
        }
        assert(trim_end(w) == w);
    }
    u.to_owned()
}

/// The replacement of one character: `to` for `from`, else the character.
pub open spec fn piece(c: char, from: char, to: Seq<char>) -> Seq<char> {
    if c == from {
        to
    } else {
        seq![c]
    }
}

/// `s` with every `from` replaced by `to`.
pub open spec fn replaced(s: Seq<char>, from: char, to: Seq<char>) -> Seq<char> {
    s.map_values(|c: char| piece(c, from, to)).flatten()
}

/// Replacing in a sequence with one more character appends that character's piece.
proof fn lemma_replaced_push(s: Seq<char>, c: char, from: char, to: Seq<char>)
    ensures
        replaced(s.push(c), from, to) == replaced(s, from, to) + piece(c, from, to),
{
    let f = |x: char| piece(x, from, to);
    assert(s.push(c).map_values(f) =~= s.map_values(f).push(piece(c, from, to)));
    s.map_values(f).lemma_flatten_push(piece(c, from, to));
}

/// `s` with every `from` replaced by `to`.
fn replace_char(s: &str, from: char, to: &str) -> (r: String)
    ensures
        r@ == replaced(s@, from, to@),
{
    let n = s.unicode_len();
    let mut r = String::new();
    let mut i: usize = 0;
    assert(s@.take(0).map_values(|c: char| piece(c, from, to@)) =~= Seq::<Seq<char>>::empty());
    while i < n
        invariant
            n == s@.len(),
            i <= n,
            r@ == replaced(s@.take(i as int), from, to@),
        decreases n - i,
    {
        let c = s.get_char(i);
        if c == from {
            r.append(to);
        } else {
            let one = s.substring_char(i, i + 1);
            assert(one@ =~= seq![c]);
            r.append(one);
        }
        proof {
            assert(s@.take(i as int + 1) =~= s@.take(i as int).push(c));
            lemma_replaced_push(s@.take(i as int), c, from, to@);
        }
        i = i + 1;
    }
    assert(s@.take(n as int) =~= s@);
    r
}

/// The order in which types are weighed; earlier types win ties.
pub open spec fn detect_order() -> Seq<DataType> {
    seq![
        DataType::Date,
        DataType::Boolean,
        DataType::Integer,
        DataType::Float,
        DataType::Currency,
        DataType::Percentage,
        DataType::Email,
        DataType::Phone,
        DataType::IpAddress,
        DataType::Url,
    ]
}

/// The words that read as booleans.
pub open spec fn boolean_words() -> Seq<Seq<char>> {
    seq!["true"@, "false"@, "1"@, "0"@, "evet"@, "hay\u{131}r"@]
}

/// The form of a trimmed sample that is read as a number: dots (thousands
/// separators) dropped, then commas (decimal separators) turned into dots.
pub open spec fn numeric_form_of(v: Seq<char>) -> Seq<char> {
    replaced(replaced(v, '.', Seq::empty()), ',', seq!['.'])
}

/// Whether the patterns, in the order date (ISO), date (dotted), currency,
/// e-mail, phone, IP address, URL, match `v`.
pub open spec fn pattern_matches(v: Seq<char>) -> Seq<bool> {
    seq![
        regex_match_of(RE_DATE_ISO@, v),
        regex_match_of(RE_DATE_TR@, v),
        regex_match_of(RE_CURRENCY@, v),
        regex_match_of(RE_EMAIL@, v),
        regex_match_of(RE_PHONE@, v),
        regex_match_of(RE_IP@, v),
        regex_match_of(RE_URL@, v),
    ]
}

/// Whether a trimmed sample `v` scores for type `k`, given its lowercase form
/// `lower`, which patterns match it (`m`, in the order of `pattern_matches`),
/// and whether its numeric form parses as a floating-point number.
pub open spec fn scores_given(v: Seq<char>, lower: Seq<char>, m: Seq<bool>, numeric: bool, k: DataType) -> bool {
    &&& !(v.len() == 0 || v == "-"@ || lower == "null"@)
    &&& match k {
        DataType::Date => m[0] || m[1],
        DataType::Boolean => boolean_words().contains(lower),
        DataType::Percentage => numeric && v.contains('%'),
        DataType::Currency => numeric && !v.contains('%') && m[2],
        DataType::Float => numeric && !v.contains('%') && !m[2] && (v.contains(',') || v.contains('.')),
        DataType::Integer => numeric && !v.contains('%') && !m[2] && !v.contains(',') && !v.contains('.'),
        DataType::Email => m[3],
        DataType::Phone => m[4],
        DataType::IpAddress => m[5],
        DataType::Url => m[6],
        _ => false,
    }
}

/// Whether a trimmed sample scores for type `k`, where `numeric` says whether
/// its numeric form parses as a floating-point number.
pub open spec fn scores(v: Seq<char>, numeric: bool, k: DataType) -> bool {
    scores_given(v, lower_of(v), pattern_matches(v), numeric, k)
}

/// How many of the first `n` samples score for type `k`.
pub open spec fn score_count(samples: Seq<Seq<char>>, numeric: Seq<bool>, k: DataType, n: int) -> nat
    decreases n,
{
    if n <= 0 {
        0
    } else {
        score_count(samples, numeric, k, n - 1) + if scores(trim_of(samples[n - 1]), numeric[n - 1], k) {
            1nat
        } else {
            0nat
        }
    }
}

/// The best type among the first `m` of `detect_order`, with its score:
/// `Utf8` with 0 until a type scores above the best so far and reaches four
/// fifths of `total`.
pub open spec fn best_type(samples: Seq<Seq<char>>, numeric: Seq<bool>, m: int) -> (DataType, nat)
    decreases m,
{
    if m <= 0 {
        (DataType::Utf8, 0)
    } else {
        let prev = best_type(samples, numeric, m - 1);
        let t = detect_order()[m - 1];
        let c = score_count(samples, numeric, t, samples.len() as int);
        if c > prev.1 && 5 * c >= 4 * samples.len() {
            (t, c)
        } else {
            prev
        }
    }
}

/// Whether `c` occurs in `s`.
fn has_char(s: &str, c: char) -> (r: bool)
    ensures
        r == s@.contains(c),
{
    let n = s.unicode_len();
    let mut i: usize = 0;
    while i < n
        invariant
            n == s@.len(),
            i <= n,
            forall|j: int| 0 <= j < i ==> s@[j] != c,
        decreases n - i,
    {
        if s.get_char(i) == c {
            return true;
        }
        i = i + 1;
    }
    false
}

/// The numeric form of a sample (trimmed, dots dropped, commas turned into
/// dots), whose parse as a floating-point number decides whether the sample is
/// numeric.
pub fn numeric_form(sample: &str) -> (r: String)
    ensures
        r@ == numeric_form_of(trim_of(sample@)),
{
    let v = trimmed(sample);
    let no_dots = replace_char(v.as_str(), '.', "");
    proof {
        reveal_strlit("");
        reveal_strlit(".");
        assert(""@ =~= Seq::<char>::empty());
        assert("."@ =~= seq!['.']);
    }
    replace_char(no_dots.as_str(), ',', ".")
}

/// Which types of `detect_order` a trimmed sample `v` scores for, given its
/// lowercase form, the results of the patterns on it (in the order of
/// `pattern_matches`) and whether its numeric form parses as a number.
pub fn score_sample(v: &str, lower: &str, m: &Vec<bool>, numeric: bool) -> (r: Vec<bool>)
    requires
        m@.len() == 7,
    ensures
        r@.len() == 10,
        forall|j: int| 0 <= j < 10 ==> r@[j] == scores_given(v@, lower@, m@, numeric, #[trigger] detect_order()[j]),
{
    let lower_s = lower.to_owned();
    if v.unicode_len() == 0 || v.to_owned() == "-".to_owned() || lower_s == "null".to_owned() {
        return vec![false, false, false, false, false, false, false, false, false, false];
    }
    let boolean = lower_s == "true".to_owned() || lower_s == "false".to_owned() || lower_s == "1".to_owned()
        || lower_s == "0".to_owned() || lower_s == "evet".to_owned() || lower_s == "hay\u{131}r".to_owned();
    proof {
        let w = boolean_words();
        assert(boolean == w.contains(lower@)) by {
            if w.contains(lower@) {
                let i = choose|i: int| 0 <= i < w.len() && w[i] == lower@;
                assert(i == 0 || i == 1 || i == 2 || i == 3 || i == 4 || i == 5);
            }
            if boolean {
                assert(w[0] == "true"@ && w[1] == "false"@ && w[2] == "1"@ && w[3] == "0"@ && w[4] == "evet"@ && w[5]
                    == "hay\u{131}r"@);
            }
        }
    }
    let pct = has_char(v, '%');
    let comma = has_char(v, ',');
    let dot = has_char(v, '.');
    let currency = m[2];
    let r = vec![
        m[0] || m[1],
        boolean,
        numeric && !pct && !currency && !comma && !dot,
        numeric && !pct && !currency && (comma || dot),
        numeric && !pct && currency,
        numeric && pct,
        m[3],
        m[4],
        m[5],
        m[6],
    ];
    r
}

/// Which types of `detect_order` a trimmed sample scores for.
fn sample_flags(v: &str, numeric: bool) -> (r: Vec<bool>)
    ensures
        r@.len() == 10,
        forall|j: int| 0 <= j < 10 ==> r@[j] == scores(v@, numeric, #[trigger] detect_order()[j]),
{
    let lower = lowercase(v);
    let m = vec![
        regex_matches(RE_DATE_ISO, v),
        regex_matches(RE_DATE_TR, v),
        regex_matches(RE_CURRENCY, v),
        regex_matches(RE_EMAIL, v),
        regex_matches(RE_PHONE, v),
        regex_matches(RE_IP, v),
        regex_matches(RE_URL, v),
    ];
    assert(m@ == pattern_matches(v@));
    score_sample(v, lower.as_str(), &m, numeric)
}

/// Detects the type of a column from sample values: `numeric[i]` says whether
/// `numeric_form(samples[i])` parses as a floating-point number. Returns the
/// type, the number of samples that scored for it and the number of samples
/// (the confidence is their ratio); `Utf8` with no match when no type reaches
/// four fifths of the samples.
pub fn detect_column_type(samples: &Vec<String>, numeric: &Vec<bool>) -> (r: (DataType, u32, u32))
    requires
        numeric@.len() == samples@.len(),
        samples@.len() <= u32::MAX,
    ensures
        r.2 == samples@.len(),
        (r.0, r.1 as nat) == best_type(views(samples@), numeric@, 10),
{
    let ghost sv = views(samples@);
    let mut counts: Vec<u32> = vec![0, 0, 0, 0, 0, 0, 0, 0, 0, 0];
    let mut i: usize = 0;
    while i < samples.len()
        invariant
            sv == views(samples@),
            numeric@.len() == samples@.len(),
            samples@.len() <= u32::MAX,
            i <= samples@.len(),
            counts@.len() == 10,
            forall|j: int| 0 <= j < 10 ==> #[trigger] counts@[j] as nat == score_count(sv, numeric@, detect_order()[j], i as int),
            forall|j: int| 0 <= j < 10 ==> #[trigger] counts@[j] <= i,
        decreases samples@.len() - i,
    {
        let v = trimmed(samples[i].as_str());
        assert(sv[i as int] == samples@[i as int]@);
        let flags = sample_flags(v.as_str(), numeric[i]);
        let mut j: usize = 0;
        while j < 10
            invariant
                sv == views(samples@),
                numeric@.len() == samples@.len(),
                samples@.len() <= u32::MAX,
                i < samples@.len(),
                j <= 10,
                counts@.len() == 10,
                flags@.len() == 10,
                v@ == trim_of(sv[i as int]),
                forall|k: int| 0 <= k < 10 ==> flags@[k] == scores(v@, numeric@[i as int], #[trigger] detect_order()[k]),
                forall|k: int| 0 <= k < j ==> #[trigger] counts@[k] as nat == score_count(sv, numeric@, detect_order()[k], i + 1),
                forall|k: int| j <= k < 10 ==> #[trigger] counts@[k] as nat == score_count(sv, numeric@, detect_order()[k], i as int),
                forall|k: int| 0 <= k < j ==> #[trigger] counts@[k] <= i + 1,
                forall|k: int| j <= k < 10 ==> #[trigger] counts@[k] <= i,
            decreases 10 - j,
        {
            if flags[j] {
                let c = counts[j];
                counts.set(j, c + 1);
            }
            j = j + 1;
        }
        i = i + 1;
    }
    let total = samples.len() as u32;
    let r = pick_type(&counts, total);
    proof {
        lemma_best_from_counts(sv, numeric@, counts@, 10);
    }
    (r.0, r.1, total)
}

/// The best type among the first `m` of `detect_order`, given the score
/// `counts[j]` of each type `detect_order()[j]` out of `total` samples: `Utf8`
/// with 0 until a type scores above the best so far and reaches four fifths
/// of `total`.
pub open spec fn best_among(counts: Seq<u32>, total: nat, m: int) -> (DataType, nat)
    decreases m,
{
    if m <= 0 {
        (DataType::Utf8, 0)
    } else {
        let prev = best_among(counts, total, m - 1);
        let c = counts[m - 1] as nat;
        if c > prev.1 && 5 * c >= 4 * total {
            (detect_order()[m - 1], c)
        } else {
            prev
        }
    }
}

/// Counted scores give the type that the samples give.
proof fn lemma_best_from_counts(sv: Seq<Seq<char>>, numeric: Seq<bool>, counts: Seq<u32>, m: int)
    requires
        0 <= m <= 10,
        counts.len() == 10,
        forall|j: int| 0 <= j < 10 ==> #[trigger] counts[j] as nat == score_count(sv, numeric, detect_order()[j], sv.len() as int),
    ensures
        best_among(counts, sv.len(), m) == best_type(sv, numeric, m),
    decreases m,
{
    if m > 0 {
        lemma_best_from_counts(sv, numeric, counts, m - 1);
        assert(counts[m - 1] as nat == score_count(sv, numeric, detect_order()[m - 1], sv.len() as int));
    }
}

/// Picks the detected type from the score of each type of `detect_order`
/// (`counts[j]` for `detect_order()[j]`) out of `total` samples; returns it
/// with its score.
pub fn pick_type(counts: &Vec<u32>, total: u32) -> (r: (DataType, u32))
    requires
        counts@.len() == 10,
    ensures
        (r.0, r.1 as nat) == best_among(counts@, total as nat, 10),
{
    let order = vec![
        DataType::Date,
        DataType::Boolean,
        DataType::Integer,
        DataType::Float,
        DataType::Currency,
        DataType::Percentage,
        DataType::Email,
        DataType::Phone,
        DataType::IpAddress,
        DataType::Url,
    ];
    assert(order@ == detect_order());
    let mut best = DataType::Utf8;
    let mut max_score: u32 = 0;
    let mut m: usize = 0;
    while m < 10
        invariant
            order@ == detect_order(),
            counts@.len() == 10,
            m <= 10,
            (best, max_score as nat) == best_among(counts@, total as nat, m as int),
        decreases 10 - m,
    {
        let c = counts[m];
        if c > max_score && 5 * (c as u64) >= 4 * (total as u64) {
            max_score = c;
            best = order[m];
        }
        m = m + 1;
    }
    (best, max_score)
}

} // verus!
