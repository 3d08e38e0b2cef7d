//! String helpers: splitting, trimming, joining and decimal numerals, each
//! with a spec-level definition over `Seq<char>` and a verified executable
//! counterpart.
use vstd::prelude::*;
use vstd::string::*;

verus! {

/// ASCII whitespace, the only whitespace the command grammar uses.
pub open spec fn is_ws_char(c: char) -> bool {
    c == ' ' || c == '\t' || c == '\n' || c == '\r'
}

/// Characters stripped from INSERT values: quotes, parentheses and spaces
/// cannot appear inside a field value.
pub open spec fn is_stripped_char(c: char) -> bool {
    c == '\'' || c == '(' || c == ')' || c == ' '
}

/// The views of a sequence of strings.
pub open spec fn views_of(v: Seq<String>) -> Seq<Seq<char>> {
    v.map_values(|s: String| s@)
}

/// The views of a sequence of rows of strings.
pub open spec fn views2_of(v: Seq<Vec<String>>) -> Seq<Seq<Seq<char>>> {
    v.map_values(|r: Vec<String>| views_of(r@))
}

/// Pushing a string extends the views by its view.
pub proof fn lemma_views_of_push(v: Seq<String>, x: String)
    ensures
        views_of(v.push(x)) == views_of(v).push(x@),
{
    assert(views_of(v.push(x)) =~= views_of(v).push(x@));
}

/// Pushing a row extends the row views by its view.
pub proof fn lemma_views2_of_push(v: Seq<Vec<String>>, x: Vec<String>)
    ensures
        views2_of(v.push(x)) == views2_of(v).push(views_of(x@)),
{
    assert(views2_of(v.push(x)) =~= views2_of(v).push(views_of(x@)));
}

/// The position of the first occurrence of the character `c`.
pub open spec fn spec_find_char(s: Seq<char>, c: char) -> Option<int>
    decreases s.len(),
{
    if s.len() == 0 {
        None
    } else if s[0] == c {
        Some(0int)
    } else {
        match spec_find_char(s.skip(1), c) {
            None => None,
            Some(i) => Some(i + 1),
        }
    }
}

/// The position of the first occurrence of the pattern `p`, as `str::find`
/// reports it; the empty pattern is found at the start.
pub open spec fn spec_find_str(s: Seq<char>, p: Seq<char>) -> Option<int>
    decreases s.len(),
{
    if p.len() == 0 {
        Some(0int)
    } else if s.len() < p.len() {
        None
    } else if s.take(p.len() as int) == p {
        Some(0int)
    } else {
        match spec_find_str(s.skip(1), p) {
            None => None,
            Some(i) => Some(i + 1),
        }
    }
}

/// Splitting at every occurrence of the character `c`; an empty input or an
/// input made only of separators still yields the empty pieces, as
/// `str::split` does.
pub open spec fn spec_split_char(s: Seq<char>, c: char) -> Seq<Seq<char>>
    decreases s.len(),
{
    if s.len() == 0 {
        seq![Seq::<char>::empty()]
    } else if s[0] == c {
        seq![Seq::<char>::empty()] + spec_split_char(s.skip(1), c)
    } else {
        let r = spec_split_char(s.skip(1), c);
        seq![seq![s[0]] + r[0]] + r.skip(1)
    }
}

pub proof fn lemma_split_char_len(s: Seq<char>, c: char)
    ensures
        spec_split_char(s, c).len() >= 1,
    decreases s.len(),
{
    if s.len() == 0 {
    } else if s[0] == c {
        lemma_split_char_len(s.skip(1), c);
    } else {
        lemma_split_char_len(s.skip(1), c);
    }
}

/// Splitting at every occurrence of the pattern `p`, scanning left to right
/// without overlap, as `str::split` on a string pattern does. An empty
/// pattern splits nothing.
pub open spec fn spec_split_str(s: Seq<char>, p: Seq<char>) -> Seq<Seq<char>>
    decreases s.len(),
{
    if p.len() == 0 || s.len() < p.len() {
        seq![s]
    } else if s.take(p.len() as int) == p {
        seq![Seq::<char>::empty()] + spec_split_str(s.skip(p.len() as int), p)
    } else {
        let r = spec_split_str(s.skip(1), p);
        seq![seq![s[0]] + r[0]] + r.skip(1)
    }
}

/// Splitting at runs of whitespace, dropping the empty pieces, as
/// `str::split_whitespace` does on ASCII text.
pub open spec fn spec_split_ws(s: Seq<char>) -> Seq<Seq<char>>
    decreases s.len(),
{
    if s.len() == 0 {
        Seq::<Seq<char>>::empty()
    } else if is_ws_char(s[0]) {
        spec_split_ws(s.skip(1))
    } else if s.len() >= 2 && !is_ws_char(s[1]) {
        let r = spec_split_ws(s.skip(1));
        seq![seq![s[0]] + r[0]] + r.skip(1)
    } else {
        seq![seq![s[0]]] + spec_split_ws(s.skip(1))
    }
}

/// Dropping leading and trailing ASCII whitespace.
pub open spec fn spec_trim(s: Seq<char>) -> Seq<char>
    decreases s.len(),
{
    if s.len() == 0 {
        s
    } else if is_ws_char(s[0]) {
        spec_trim(s.skip(1))
    } else if is_ws_char(s[s.len() - 1]) {
        spec_trim(s.take(s.len() - 1))
    } else {
        s
    }
}

/// Dropping every leading occurrence of the character `c`, as
/// `str::trim_start_matches` on a char pattern does.
pub open spec fn spec_trim_lead_char(s: Seq<char>, c: char) -> Seq<char>
    decreases s.len(),
{
    if s.len() > 0 && s[0] == c {
        spec_trim_lead_char(s.skip(1), c)
    } else {
        s
    }
}

/// Dropping every trailing occurrence of the character `c`, as
/// `str::trim_end_matches` on a char pattern does.
pub open spec fn spec_trim_trail_char(s: Seq<char>, c: char) -> Seq<char>
    decreases s.len(),
{
    if s.len() > 0 && s[s.len() - 1] == c {
        spec_trim_trail_char(s.take(s.len() - 1), c)
    } else {
        s
    }
}

/// Dropping every occurrence of the character `c`, as `str::replace` with an
/// empty replacement does.
pub open spec fn spec_remove_char(s: Seq<char>, c: char) -> Seq<char>
    decreases s.len(),
{
    if s.len() == 0 {
        s
    } else if s[0] == c {
        spec_remove_char(s.skip(1), c)
    } else {
        seq![s[0]] + spec_remove_char(s.skip(1), c)
    }
}

/// Dropping every quote, parenthesis and space character.
pub open spec fn spec_strip(s: Seq<char>) -> Seq<char>
    decreases s.len(),
{
    if s.len() == 0 {
        s
    } else if is_stripped_char(s[0]) {
        spec_strip(s.skip(1))
    } else {
        seq![s[0]] + spec_strip(s.skip(1))
    }
}

/// The pieces joined with the separator between them.
pub open spec fn spec_join(parts: Seq<Seq<char>>, sep: Seq<char>) -> Seq<char>
    decreases parts.len(),
{
    if parts.len() == 0 {
        Seq::<char>::empty()
    } else if parts.len() == 1 {
        parts[0]
    } else {
        parts[0] + sep + spec_join(parts.skip(1), sep)
    }
}

fn ws_char(c: char) -> (r: bool)
    ensures
        r == is_ws_char(c),
{
    c == ' ' || c == '\t' || c == '\n' || c == '\r'
}

fn stripped_char(c: char) -> (r: bool)
    ensures
        r == is_stripped_char(c),
{
    c == '\'' || c == '(' || c == ')' || c == ' '
}

/// Character-wise string equality, decided against the views.
pub fn str_eq(a: &str, b: &str) -> (r: bool)
    ensures
        r == (a@ == b@),
{
    let na = a.unicode_len();
    let nb = b.unicode_len();
    if na != nb {
        return false;
    }
    let mut i: usize = 0;
    while i < na
        invariant
            na == a@.len(),
            na == b@.len(),
            i <= na,
            forall|j: int| 0 <= j < i ==> a@[j] == b@[j],
        decreases na - i,
    {
        if a.get_char(i) != b.get_char(i) {
            return false;
        }
        i = i + 1;
    }
    proof {
        assert(a@ =~= b@);
    }
    true
}

/// `str::find` on a single character, under the view of `spec_find_char`.
pub fn find_char(s: &str, c: char) -> (r: Option<usize>)
    ensures
        match r {
            Some(i) => i < s@.len() && spec_find_char(s@, c) == Some(i as int),
            None => spec_find_char(s@, c) is None,
        },
    decreases s@.len(),
{
    let n = s.unicode_len();
    if n == 0 {
        None
    } else if s.get_char(0) == c {
        Some(0)
    } else {
        match find_char(s.substring_char(1, n), c) {
            None => None,
            Some(i) => Some(i + 1),
        }
    }
}

/// `str::find` on a string pattern, under the view of `spec_find_str`.
pub fn find_str(s: &str, p: &str) -> (r: Option<usize>)
    ensures
        match r {
            Some(i) => i + p@.len() <= s@.len() && spec_find_str(s@, p@) == Some(i as int),
            None => spec_find_str(s@, p@) is None,
        },
    decreases s@.len(),
{
    let n = s.unicode_len();
    let np = p.unicode_len();
    if np == 0 {
        Some(0)
    } else if n < np {
        None
    } else if str_eq(s.substring_char(0, np), p) {
        Some(0)
    } else {
        match find_str(s.substring_char(1, n), p) {
            None => None,
            Some(i) => Some(i + 1),
        }
    }
}

/// Whether `s` begins with the pattern `p`.
pub fn str_starts_with(s: &str, p: &str) -> (r: bool)
    ensures
        r == (s@.len() >= p@.len() && s@.take(p@.len() as int) == p@),
{
    let n = s.unicode_len();
    let np = p.unicode_len();
    if n < np {
        return false;
    }
    let head = s.substring_char(0, np);
    str_eq(head, p)
}

/// `str::split` on a single character, under the view of `spec_split_char`.
pub fn split_char(s: &str, c: char) -> (r: Vec<String>)
    ensures
        views_of(r@) == spec_split_char(s@, c),
        r@.len() >= 1,
    decreases s@.len(),
{
    let n = s.unicode_len();
    if n == 0 {
        let mut r: Vec<String> = Vec::new();
        r.push(String::new());
        proof {
            assert(views_of(r@) =~= spec_split_char(s@, c));
        }
        r
    } else if s.get_char(0) == c {
        let mut rest = split_char(s.substring_char(1, n), c);
        rest.insert(0, String::new());
        proof {
            assert(views_of(rest@) =~= spec_split_char(s@, c));
        }
        rest
    } else {
        let mut rest = split_char(s.substring_char(1, n), c);
        let mut first = String::from_str(s.substring_char(0, 1));
        first.append(rest[0].as_str());
        rest[0] = first;
        proof {
            assert(s@.subrange(0, 1) =~= seq![s@[0]]);
            assert(views_of(rest@) =~= spec_split_char(s@, c));
        }
        rest
    }
}

/// `str::split` on a string pattern, under the view of `spec_split_str`.
pub fn split_str(s: &str, p: &str) -> (r: Vec<String>)
    ensures
        views_of(r@) == spec_split_str(s@, p@),
        r@.len() >= 1,
    decreases s@.len(),
{
    let n = s.unicode_len();
    let np = p.unicode_len();
    if np == 0 || n < np {
        let mut r: Vec<String> = Vec::new();
        r.push(String::from_str(s));
        proof {
            assert(views_of(r@) =~= spec_split_str(s@, p@));
        }
        r
    } else if str_eq(s.substring_char(0, np), p) {
        let mut rest = split_str(s.substring_char(np, n), p);
        rest.insert(0, String::new());
        proof {
            assert(views_of(rest@) =~= spec_split_str(s@, p@));
        }
        rest
    } else {
        let mut rest = split_str(s.substring_char(1, n), p);
        let mut first = String::from_str(s.substring_char(0, 1));
        first.append(rest[0].as_str());
        rest[0] = first;
        proof {
            assert(s@.subrange(0, 1) =~= seq![s@[0]]);
            assert(views_of(rest@) =~= spec_split_str(s@, p@));
        }
        rest
    }
}

/// `str::split_whitespace`, under the view of `spec_split_ws`.
pub fn split_ws(s: &str) -> (r: Vec<String>)
    ensures
        views_of(r@) == spec_split_ws(s@),
    decreases s@.len(),
{
    let n = s.unicode_len();
    if n == 0 {
        let r: Vec<String> = Vec::new();
        proof {
            assert(views_of(r@) =~= spec_split_ws(s@));
        }
        r
    } else if ws_char(s.get_char(0)) {
        split_ws(s.substring_char(1, n))
    } else if n >= 2 && !ws_char(s.get_char(1)) {
        let mut rest = split_ws(s.substring_char(1, n));
        proof {
            assert(spec_split_ws(s@.skip(1)).len() >= 1) by {
                lemma_split_ws_head(s@.skip(1));
            }
        }
        let mut first = String::from_str(s.substring_char(0, 1));
        first.append(rest[0].as_str());
        rest[0] = first;
        proof {
            assert(s@.subrange(0, 1) =~= seq![s@[0]]);
            assert(views_of(rest@) =~= spec_split_ws(s@));
        }
        rest
    } else {
        let mut rest = split_ws(s.substring_char(1, n));
        let first = String::from_str(s.substring_char(0, 1));
        rest.insert(0, first);
        proof {
            assert(s@.subrange(0, 1) =~= seq![s@[0]]);
            assert(views_of(rest@) =~= spec_split_ws(s@));
        }
        rest
    }
}

/// A split at a non-whitespace head starts with a non-empty piece.
pub proof fn lemma_split_ws_head(s: Seq<char>)
    requires
        s.len() >= 1,
        !is_ws_char(s[0]),
    ensures
        spec_split_ws(s).len() >= 1,
        spec_split_ws(s)[0].len() >= 1,
        spec_split_ws(s)[0][0] == s[0],
    decreases s.len(),
{
    if s.len() >= 2 && !is_ws_char(s[1]) {
        lemma_split_ws_head(s.skip(1));
    }
}

/// `str::trim` on ASCII text, under the view of `spec_trim`.
pub fn trim(s: &str) -> (r: String)
    ensures
        r@ == spec_trim(s@),
    decreases s@.len(),
{
    let n = s.unicode_len();
    if n == 0 {
        String::from_str(s)
    } else if ws_char(s.get_char(0)) {
        trim(s.substring_char(1, n))
    } else if ws_char(s.get_char(n - 1)) {
        trim(s.substring_char(0, n - 1))
    } else {
        String::from_str(s)
    }
}

/// Dropping quotes, parentheses and spaces, under the view of `spec_strip`.
pub fn strip_special(s: &str) -> (r: String)
    ensures
        r@ == spec_strip(s@),
    decreases s@.len(),
{
    let n = s.unicode_len();
    if n == 0 {
        String::from_str(s)
    } else if stripped_char(s.get_char(0)) {
        strip_special(s.substring_char(1, n))
    } else {
        let rest = strip_special(s.substring_char(1, n));
        let mut first = String::from_str(s.substring_char(0, 1));
        first.append(rest.as_str());
        proof {
            assert(s@.subrange(0, 1) =~= seq![s@[0]]);
        }
        first
    }
}

/// `str::trim_start_matches` on a char, under the view of
/// `spec_trim_lead_char`.
pub fn trim_lead_char(s: &str, c: char) -> (r: String)
    ensures
        r@ == spec_trim_lead_char(s@, c),
    decreases s@.len(),
{
    let n = s.unicode_len();
    if n > 0 && s.get_char(0) == c {
        trim_lead_char(s.substring_char(1, n), c)
    } else {
        String::from_str(s)
    }
}

/// `str::trim_end_matches` on a char, under the view of
/// `spec_trim_trail_char`.
pub fn trim_trail_char(s: &str, c: char) -> (r: String)
    ensures
        r@ == spec_trim_trail_char(s@, c),
    decreases s@.len(),
{
    let n = s.unicode_len();
    if n > 0 && s.get_char(n - 1) == c {
        trim_trail_char(s.substring_char(0, n - 1), c)
    } else {
        String::from_str(s)
    }
}

/// `str::replace` of a char by nothing, under the view of
/// `spec_remove_char`.
pub fn remove_char(s: &str, c: char) -> (r: String)
    ensures
        r@ == spec_remove_char(s@, c),
    decreases s@.len(),
{
    let n = s.unicode_len();
    if n == 0 {
        String::from_str(s)
    } else if s.get_char(0) == c {
        remove_char(s.substring_char(1, n), c)
    } else {
        let rest = remove_char(s.substring_char(1, n), c);
        let mut first = String::from_str(s.substring_char(0, 1));
        first.append(rest.as_str());
        proof {
            assert(s@.subrange(0, 1) =~= seq![s@[0]]);
        }
        first
    }
}

/// Joining a later piece extends the joined text by the separator and the
/// piece.
pub proof fn lemma_join_push(parts: Seq<Seq<char>>, sep: Seq<char>, x: Seq<char>)
    requires
        parts.len() >= 1,
    ensures
        spec_join(parts.push(x), sep) == spec_join(parts, sep) + sep + x,
    decreases parts.len(),
{
    if parts.len() == 1 {
        assert(parts.push(x).skip(1) =~= seq![x]);
        assert(spec_join(seq![x], sep) == x) by {
            reveal_with_fuel(spec_join, 2);
        }
        assert(spec_join(parts.push(x), sep) == parts[0] + sep + x);
        assert(spec_join(parts, sep) + sep + x =~= parts[0] + sep + x);
    } else {
        lemma_join_push(parts.skip(1), sep, x);
        assert(parts.push(x).skip(1) =~= parts.skip(1).push(x));
        assert(spec_join(parts, sep) + sep + x =~= parts[0] + sep + (spec_join(
            parts.skip(1),
            sep,
        ) + sep + x));
    }
}

/// Joining with a separator, under the view of `spec_join`.
pub fn join_strings(v: &Vec<String>, sep: &str) -> (r: String)
    ensures
        r@ == spec_join(views_of(v@), sep@),
{
    let mut r = String::new();
    let mut i: usize = 0;
    while i < v.len()
        invariant
            i <= v@.len(),
            r@ == spec_join(views_of(v@).take(i as int), sep@),
        decreases v@.len() - i,
    {
        if i > 0 {
            r.append(sep);
        }
        r.append(v[i].as_str());
        proof {
            assert(views_of(v@).take(i + 1) =~= views_of(v@).take(i as int).push(v@[i as int]@));
            if i > 0 {
                lemma_join_push(views_of(v@).take(i as int), sep@, v@[i as int]@);
            }
        }
        i = i + 1;
    }
    proof {
        assert(views_of(v@).take(v@.len() as int) =~= views_of(v@));
    }
    r
}

/// The decimal digit characters.
pub open spec fn is_digit_char(c: char) -> bool {
    c == '0' || c == '1' || c == '2' || c == '3' || c == '4' || c == '5' || c == '6' || c == '7'
        || c == '8' || c == '9'
}

pub open spec fn spec_digit_char(d: int) -> char {
    if d == 0 {
        '0'
    } else if d == 1 {
        '1'
    } else if d == 2 {
        '2'
    } else if d == 3 {
        '3'
    } else if d == 4 {
        '4'
    } else if d == 5 {
        '5'
    } else if d == 6 {
        '6'
    } else if d == 7 {
        '7'
    } else if d == 8 {
        '8'
    } else {
        '9'
    }
}

pub open spec fn spec_char_digit(c: char) -> int {
    if c == '0' {
        0
    } else if c == '1' {
        1
    } else if c == '2' {
        2
    } else if c == '3' {
        3
    } else if c == '4' {
        4
    } else if c == '5' {
        5
    } else if c == '6' {
        6
    } else if c == '7' {
        7
    } else if c == '8' {
        8
    } else {
        9
    }
}

/// The decimal numeral of a non-negative integer, most significant digit
/// first, without leading zeros.
pub open spec fn spec_u64_str(n: int) -> Seq<char>
    decreases n,
{
    if n < 10 {
        seq![spec_digit_char(n)]
    } else {
        spec_u64_str(n / 10).push(spec_digit_char(n % 10))
    }
}

/// The value of a numeral made only of digits; `None` where a character is
/// no digit or the text is empty.
pub open spec fn spec_digits_value(s: Seq<char>) -> Option<int>
    decreases s.len(),
{
    if s.len() == 0 {
        None
    } else if s.len() == 1 {
        if is_digit_char(s[0]) {
            Some(spec_char_digit(s[0]))
        } else {
            None
        }
    } else {
        match spec_digits_value(s.take(s.len() - 1)) {
            None => None,
            Some(v) => if is_digit_char(s[s.len() - 1]) {
                Some(v * 10 + spec_char_digit(s[s.len() - 1]))
            } else {
                None
            },
        }
    }
}

/// The value of a numeral, where it is a run of digits whose value fits in
/// a `u64`.
pub open spec fn spec_parse_u64(s: Seq<char>) -> Option<u64> {
    match spec_digits_value(s) {
        None => None,
        Some(v) => if v <= u64::MAX {
            Some(v as u64)
        } else {
            None
        },
    }
}

fn digit_str(d: u64) -> (r: &'static str)
    requires
        d < 10,
    ensures
        r@ == seq![spec_digit_char(d as int)],
{
    proof {
        reveal_strlit("0");
        reveal_strlit("1");
        reveal_strlit("2");
        reveal_strlit("3");
        reveal_strlit("4");
        reveal_strlit("5");
        reveal_strlit("6");
        reveal_strlit("7");
        reveal_strlit("8");
        reveal_strlit("9");
    }
    let r = if d == 0 {
        "0"
    } else if d == 1 {
        "1"
    } else if d == 2 {
        "2"
    } else if d == 3 {
        "3"
    } else if d == 4 {
        "4"
    } else if d == 5 {
        "5"
    } else if d == 6 {
        "6"
    } else if d == 7 {
        "7"
    } else if d == 8 {
        "8"
    } else {
        "9"
    };
    proof {
        assert(r@ =~= seq![spec_digit_char(d as int)]);
    }
    r
}

/// The decimal numeral of `n`, under the view of `spec_u64_str`.
pub fn u64_to_string(n: u64) -> (r: String)
    ensures
        r@ == spec_u64_str(n as int),
    decreases n,
{
    if n < 10 {
        String::from_str(digit_str(n))
    } else {
        let mut r = u64_to_string(n / 10);
        r.append(digit_str(n % 10));
        proof {
            assert(r@ == spec_u64_str((n / 10) as int) + seq![spec_digit_char((n % 10) as int)]);
            assert(spec_u64_str(n as int) =~= spec_u64_str((n / 10) as int).push(
                spec_digit_char((n % 10) as int),
            ));
            assert(r@ =~= spec_u64_str(n as int));
        }
        r
    }
}

fn char_digit(c: char) -> (r: Option<u64>)
    ensures
        match r {
            Some(d) => is_digit_char(c) && d == spec_char_digit(c),
            None => !is_digit_char(c),
        },
{
    if c == '0' {
        Some(0)
    } else if c == '1' {
        Some(1)
    } else if c == '2' {
        Some(2)
    } else if c == '3' {
        Some(3)
    } else if c == '4' {
        Some(4)
    } else if c == '5' {
        Some(5)
    } else if c == '6' {
        Some(6)
    } else if c == '7' {
        Some(7)
    } else if c == '8' {
        Some(8)
    } else if c == '9' {
        Some(9)
    } else {
        None
    }
}

/// The value of a numeral is never negative.
proof fn lemma_digits_value_nonneg(s: Seq<char>)
    ensures
        spec_digits_value(s) is Some ==> spec_digits_value(s)->0 >= 0,
    decreases s.len(),
{
    if s.len() > 1 {
        lemma_digits_value_nonneg(s.take(s.len() - 1));
    }
}

/// A numeral whose digit run fails only by growing past `u64::MAX` keeps
/// failing when digits are added.
proof fn lemma_digits_value_grows(s: Seq<char>, i: int)
    requires
        0 < i <= s.len(),
        spec_digits_value(s.take(i)) is Some,
    ensures
        forall|j: int|
            i <= j <= s.len() && spec_digits_value(s.take(j)) is Some ==> #[trigger] spec_digits_value(
                s.take(j),
            )->0 >= spec_digits_value(s.take(i))->0,
    decreases s.len() - i,
{
    lemma_digits_value_nonneg(s.take(i));
    if i < s.len() {
        if spec_digits_value(s.take(i + 1)) is Some {
            assert(s.take(i + 1).take(i) =~= s.take(i));
            lemma_digits_value_grows(s, i + 1);
        } else {
            assert forall|j: int| i + 1 <= j <= s.len() implies !(spec_digits_value(s.take(j))
                is Some) by {
                lemma_digits_value_none_sticks(s, i + 1, j);
            }
        }
    }
}

/// Once a prefix fails to be a numeral, every longer prefix fails too.
proof fn lemma_digits_value_none_sticks(s: Seq<char>, i: int, j: int)
    requires
        0 < i <= j <= s.len(),
        !(spec_digits_value(s.take(i)) is Some),
    ensures
        !(spec_digits_value(s.take(j)) is Some),
    decreases j - i,
{
    if i < j {
        assert(s.take(i + 1).take(i) =~= s.take(i));
        lemma_digits_value_none_sticks(s, i + 1, j);
    }
}

/// Parsing a decimal numeral, under the view of `spec_parse_u64`.
pub fn parse_u64(s: &str) -> (r: Option<u64>)
    ensures
        r == spec_parse_u64(s@),
{
    let n = s.unicode_len();
    if n == 0 {
        return None;
    }
    let mut acc: u64 = 0;
    let mut i: usize = 0;
    while i < n
        invariant
            n == s@.len(),
            0 < n,
            i <= n,
            i == 0 ==> acc == 0,
            i > 0 ==> spec_digits_value(s@.take(i as int)) == Some(acc as int),
        decreases n - i,
    {
        let c = s.get_char(i);
        match char_digit(c) {
            None => {
                proof {
                    if i == 0 {
                        assert(s@.take(1)[0] == s@[0]);
                        assert(!(spec_digits_value(s@.take(1)) is Some));
                        if 1 < s@.len() {
                            lemma_digits_value_none_sticks(s@, 1, s@.len() as int);
                        }
                        assert(s@.take(s@.len() as int) =~= s@);
                    } else {
                        assert(s@.take(i + 1).take(i as int) =~= s@.take(i as int));
                        assert(!(spec_digits_value(s@.take(i + 1)) is Some));
                        if i + 1 < s@.len() {
                            lemma_digits_value_none_sticks(s@, i + 1, s@.len() as int);
                        }
                        assert(s@.take(s@.len() as int) =~= s@);
                    }
                }
                return None;
            },
            Some(d) => {
                if i == 0 {
                    acc = d;
                    proof {
                        assert(s@.take(1)[0] == s@[0]);
                    }
                } else {
                    if acc > (u64::MAX - d) / 10 {
                        proof {
                            assert(s@.take(i + 1).take(i as int) =~= s@.take(i as int));
                            assert(spec_digits_value(s@.take(i + 1)) == Some(
                                (acc as int) * 10 + d as int,
                            ));
                            assert((acc as int) * 10 + d as int > u64::MAX as int) by (nonlinear_arith)
                                requires
                                    acc as int > ((u64::MAX - d) as int) / 10,
                                    0 <= d <= 9,
                            ;
                            lemma_digits_value_grows(s@, i + 1);
                            assert(s@.take(s@.len() as int) =~= s@);
                            if spec_digits_value(s@) is Some {
                                assert(spec_digits_value(s@)->0 >= (acc as int) * 10 + d as int);
                            }
                        }
                        return None;
                    }
                    proof {
                        assert((acc as int) * 10 + d as int <= u64::MAX as int) by (nonlinear_arith)
                            requires
                                acc as int <= ((u64::MAX - d) as int) / 10,
                                0 <= d <= 9,
                        ;
                        assert(s@.take(i + 1).take(i as int) =~= s@.take(i as int));
                    }
                    acc = acc * 10 + d;
                }
                i = i + 1;
            },
        }
    }
    proof {
        assert(s@.take(s@.len() as int) =~= s@);
    }
    Some(acc)
}

/// Every numeral the library prints parses back to its value.
pub proof fn lemma_u64_str_value(n: int)
    requires
        0 <= n <= u64::MAX,
    ensures
        spec_parse_u64(spec_u64_str(n)) == Some(n as u64),
        spec_u64_str(n).len() >= 1,
    decreases n,
{
    if n < 10 {
        assert(spec_digits_value(spec_u64_str(n)) == Some(n));
    } else {
        lemma_u64_str_value(n / 10);
        let s = spec_u64_str(n);
        let p = spec_u64_str(n / 10);
        assert(s == p.push(spec_digit_char(n % 10)));
        assert(s.take(s.len() - 1) =~= p);
        lemma_digits_value_nonneg(p);
        assert(spec_digits_value(p) == Some(n / 10));
        assert(spec_digits_value(s) == Some((n / 10) * 10 + n % 10));
        assert((n / 10) * 10 + n % 10 == n) by (nonlinear_arith)
            requires
                n >= 0,
        ;
    }
}

/// Distinct values print as distinct numerals.
pub proof fn lemma_u64_str_injective(a: int, b: int)
    requires
        0 <= a <= u64::MAX,
        0 <= b <= u64::MAX,
        a != b,
    ensures
        spec_u64_str(a) != spec_u64_str(b),
{
    lemma_u64_str_value(a);
    lemma_u64_str_value(b);
}

} // verus!
