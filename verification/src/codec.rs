//! The on-disk text of the storage: a page file is the comma-joined header
//! line followed by one comma-joined line per row; the counter file holds a
//! decimal numeral and the lock file a `0` or `1` flag.
use vstd::prelude::*;
use vstd::string::*;
use crate::storage::Page;
use crate::storage::PageV;
use crate::strutil::join_strings;
use crate::strutil::parse_u64;
use crate::strutil::spec_join;
use crate::strutil::spec_parse_u64;
use crate::strutil::spec_split_char;
use crate::strutil::spec_trim;
use crate::strutil::spec_u64_str;
use crate::strutil::split_char;
use crate::strutil::str_eq;
use crate::strutil::trim;
use crate::strutil::u64_to_string;
use crate::strutil::views_of;
use crate::strutil::views2_of;

verus! {

/// The text of the first `k` rows: each row's fields comma-joined, one line
/// per row.
pub open spec fn spec_rows_text(rows: Seq<Seq<Seq<char>>>, k: int) -> Seq<char>
    decreases k,
{
    if k <= 0 {
        Seq::empty()
    } else {
        spec_rows_text(rows, k - 1) + spec_join(rows[k - 1], ","@) + seq!['\n']
    }
}

/// The full text of a page file: the header line, then the rows.
pub open spec fn spec_page_text(p: PageV) -> Seq<char> {
    spec_join(p.header, ","@) + seq!['\n'] + spec_rows_text(p.rows, p.rows.len() as int)
}

/// Render a page as its file text.
pub fn page_to_text(p: &Page) -> (r: String)
    ensures
        r@ == spec_page_text(p@),
{
    let mut r = join_strings(&p.header, ",");
    r.append("\n");
    proof {
        reveal_strlit("\n");
        assert("\n"@ =~= seq!['\n']);
    }
    let nr = p.rows.len();
    let mut j: usize = 0;
    while j < nr
        invariant
            nr == p.rows@.len(),
            j <= nr,
            r@ == spec_join(p@.header, ","@) + seq!['\n'] + spec_rows_text(p@.rows, j as int),
        decreases nr - j,
    {
        let line = join_strings(&p.rows[j], ",");
        r.append(line.as_str());
        r.append("\n");
        proof {
            reveal_strlit("\n");
            assert("\n"@ =~= seq!['\n']);
            assert(p@.rows[j as int] == views_of(p.rows@[j as int]@));
            assert(r@ =~= spec_join(p@.header, ","@) + seq!['\n'] + spec_rows_text(
                p@.rows,
                j + 1,
            ));
        }
        j = j + 1;
    }
    r
}

/// The lines of a page file: split at newlines, with the empty piece after
/// a final newline dropped, as reading lines does.
pub open spec fn spec_page_lines(s: Seq<char>) -> Seq<Seq<char>> {
    let ls = spec_split_char(s, '\n');
    if ls.len() > 0 && ls.last().len() == 0 {
        ls.drop_last()
    } else {
        ls
    }
}

/// A page read back from its file text: the first line is the header, each
/// later line one row; a file without even a header line is no page.
pub open spec fn spec_parse_page(s: Seq<char>) -> Option<PageV> {
    let lines = spec_page_lines(s);
    if lines.len() == 0 {
        None
    } else {
        Some(
            PageV {
                header: spec_split_char(lines[0], ','),
                rows: lines.skip(1).map_values(|l: Seq<char>| spec_split_char(l, ',')),
            },
        )
    }
}

/// Parse a page file's text, under the view of `spec_parse_page`.
pub fn parse_page(text: &str) -> (r: Option<Page>)
    ensures
        match r {
            Some(p) => spec_parse_page(text@) == Some(p@),
            None => spec_parse_page(text@) is None,
        },
{
    let mut lines = split_char(text, '\n');
    proof {
        crate::strutil::lemma_split_char_len(text@, '\n');
    }
    let nl = lines.len();
    if lines[nl - 1].as_str().unicode_len() == 0 {
        lines.pop();
        proof {
            assert(views_of(lines@) =~= spec_page_lines(text@));
        }
    } else {
        proof {
            assert(views_of(lines@) =~= spec_page_lines(text@));
        }
    }
    if lines.len() == 0 {
        return None;
    }
    let ghost linesv = views_of(lines@);
    let header = split_char(lines[0].as_str(), ',');
    let mut rows: Vec<Vec<String>> = Vec::new();
    let n = lines.len();
    let mut j: usize = 1;
    while j < n
        invariant
            n == lines@.len(),
            1 <= j <= n,
            linesv == views_of(lines@),
            views2_of(rows@).len() == j - 1,
            forall|q: int|
                0 <= q < j - 1 ==> views2_of(rows@)[q] == spec_split_char(linesv[q + 1], ','),
        decreases n - j,
    {
        let row = split_char(lines[j].as_str(), ',');
        let ghost pre_rows = rows@;
        proof {
            crate::strutil::lemma_views2_of_push(pre_rows, row);
        }
        rows.push(row);
        proof {
            assert(linesv[j as int] == lines@[j as int]@);
            assert forall|q: int| 0 <= q < j implies views2_of(rows@)[q] == spec_split_char(
                linesv[q + 1],
                ',',
            ) by {
                if q < j - 1 {
                    assert(views2_of(rows@)[q] == views2_of(pre_rows)[q]);
                }
            }
        }
        j = j + 1;
    }
    let p = Page { header, rows };
    proof {
        assert(linesv[0] == lines@[0]@);
        assert(p@.rows =~= linesv.skip(1).map_values(|l: Seq<char>| spec_split_char(l, ',')));
        assert(p@ =~~= spec_parse_page(text@)->Some_0);
    }
    Some(p)
}

/// The text of the counter file: the decimal numeral and a newline.
pub open spec fn spec_counter_text(n: u64) -> Seq<char> {
    spec_u64_str(n as int) + seq!['\n']
}

/// Render the counter file's text.
pub fn counter_to_text(n: u64) -> (r: String)
    ensures
        r@ == spec_counter_text(n),
{
    let mut r = u64_to_string(n);
    r.append("\n");
    proof {
        reveal_strlit("\n");
        assert("\n"@ =~= seq!['\n']);
    }
    r
}

/// The counter a file's text holds: its trimmed content read as a decimal
/// numeral.
pub open spec fn spec_parse_counter(s: Seq<char>) -> Option<u64> {
    spec_parse_u64(spec_trim(s))
}

/// Parse the counter file's text, under the view of `spec_parse_counter`.
pub fn parse_counter(text: &str) -> (r: Option<u64>)
    ensures
        r == spec_parse_counter(text@),
{
    let t = trim(text);
    parse_u64(t.as_str())
}

/// The text of the lock file: `1` for locked, `0` for free, and a newline.
pub open spec fn spec_lock_text(locked: bool) -> Seq<char> {
    (if locked {
        "1"@
    } else {
        "0"@
    }) + seq!['\n']
}

/// Render the lock file's text.
pub fn lock_to_text(locked: bool) -> (r: String)
    ensures
        r@ == spec_lock_text(locked),
{
    let mut r = if locked {
        String::from_str("1")
    } else {
        String::from_str("0")
    };
    r.append("\n");
    proof {
        reveal_strlit("\n");
        assert("\n"@ =~= seq!['\n']);
    }
    r
}

/// Whether a lock file's text reads as locked: its trimmed content is `1`.
pub open spec fn spec_parse_lock(s: Seq<char>) -> bool {
    spec_trim(s) == "1"@
}

/// Parse the lock file's text, under the view of `spec_parse_lock`.
pub fn parse_lock(text: &str) -> (r: bool)
    ensures
        r == spec_parse_lock(text@),
{
    let t = trim(text);
    str_eq(t.as_str(), "1")
}

/// A text without the separator splits into itself alone.
proof fn lemma_split_char_free(s: Seq<char>, c: char)
    requires
        forall|i: int| 0 <= i < s.len() ==> s[i] != c,
    ensures
        spec_split_char(s, c) == seq![s],
    decreases s.len(),
{
    if s.len() > 0 {
        lemma_split_char_free(s.skip(1), c);
        assert(spec_split_char(s, c) =~~= seq![s]);
    } else {
        assert(s =~= Seq::<char>::empty());
        assert(spec_split_char(s, c) =~~= seq![s]);
    }
}

/// Splitting after a separator-free head peels the head off.
proof fn lemma_split_char_concat(a: Seq<char>, b: Seq<char>, c: char)
    requires
        forall|i: int| 0 <= i < a.len() ==> a[i] != c,
    ensures
        spec_split_char(a + seq![c] + b, c) == seq![a] + spec_split_char(b, c),
    decreases a.len(),
{
    let s = a + seq![c] + b;
    if a.len() == 0 {
        assert(s =~= seq![c] + b);
        assert(s[0] == c);
        assert(s.skip(1) =~= b);
        assert(spec_split_char(s, c) =~~= seq![a] + spec_split_char(b, c));
    } else {
        assert(s[0] == a[0]);
        assert(s.skip(1) =~= a.skip(1) + seq![c] + b);
        lemma_split_char_concat(a.skip(1), b, c);
        crate::strutil::lemma_split_char_len(b, c);
        assert(spec_split_char(s, c) =~~= seq![a] + spec_split_char(b, c));
    }
}

/// Joining separator-free pieces and splitting again gives the pieces back.
proof fn lemma_split_join(parts: Seq<Seq<char>>, c: char)
    requires
        parts.len() >= 1,
        forall|i: int, j: int|
            0 <= i < parts.len() && 0 <= j < parts[i].len() ==> (#[trigger] parts[i][j]) != c,
    ensures
        spec_split_char(spec_join(parts, seq![c]), c) == parts,
    decreases parts.len(),
{
    if parts.len() == 1 {
        lemma_split_char_free(parts[0], c);
        assert(spec_split_char(spec_join(parts, seq![c]), c) =~~= parts);
    } else {
        assert(spec_join(parts, seq![c]) == parts[0] + seq![c] + spec_join(
            parts.skip(1),
            seq![c],
        ));
        lemma_split_char_concat(parts[0], spec_join(parts.skip(1), seq![c]), c);
        assert forall|i: int, j: int|
            0 <= i < parts.skip(1).len() && 0 <= j < parts.skip(1)[i].len() implies (
        #[trigger] parts.skip(1)[i][j]) != c by {
            assert(parts.skip(1)[i] == parts[i + 1]);
        }
        lemma_split_join(parts.skip(1), c);
        assert(spec_split_char(spec_join(parts, seq![c]), c) =~~= parts);
    }
}

/// A character that no piece and no separator holds never occurs in the
/// joined text.
proof fn lemma_join_free(parts: Seq<Seq<char>>, sep: Seq<char>, c: char)
    requires
        forall|i: int, j: int|
            0 <= i < parts.len() && 0 <= j < parts[i].len() ==> (#[trigger] parts[i][j]) != c,
        forall|j: int| 0 <= j < sep.len() ==> sep[j] != c,
    ensures
        forall|j: int|
            0 <= j < spec_join(parts, sep).len() ==> (#[trigger] spec_join(parts, sep)[j]) != c,
    decreases parts.len(),
{
    if parts.len() <= 1 {
    } else {
        assert forall|i: int, j: int|
            0 <= i < parts.skip(1).len() && 0 <= j < parts.skip(1)[i].len() implies (
        #[trigger] parts.skip(1)[i][j]) != c by {
            assert(parts.skip(1)[i] == parts[i + 1]);
        }
        lemma_join_free(parts.skip(1), sep, c);
        assert forall|j: int| 0 <= j < spec_join(parts, sep).len() implies (
        #[trigger] spec_join(parts, sep)[j]) != c by {
            let s = spec_join(parts, sep);
            assert(s == parts[0] + sep + spec_join(parts.skip(1), sep));
            if j < parts[0].len() {
                assert(s[j] == parts[0][j]);
            } else if j < parts[0].len() + sep.len() {
                assert(s[j] == sep[j - parts[0].len()]);
            } else {
                assert(s[j] == spec_join(parts.skip(1), sep)[j - parts[0].len() - sep.len()]);
            }
        }
    }
}

/// Whether a page's fields are storable: no field of the header or of any
/// row holds the separator or a newline, and no line is empty.
pub open spec fn spec_page_storable(p: PageV) -> bool {
    &&& p.header.len() >= 1
    &&& forall|i: int, j: int|
        0 <= i < p.header.len() && 0 <= j < p.header[i].len() ==> (#[trigger] p.header[i][j])
            != ',' && p.header[i][j] != '\n'
    &&& forall|r: int| 0 <= r < p.rows.len() ==> (#[trigger] p.rows[r]).len() >= 1
    &&& forall|r: int, i: int, j: int|
        0 <= r < p.rows.len() && 0 <= i < p.rows[r].len() && 0 <= j < p.rows[r][i].len() ==> (
        #[trigger] p.rows[r][i][j]) != ',' && p.rows[r][i][j] != '\n'
}

/// The text of the first `k` rows splits at newlines into the joined lines
/// and one final empty piece.
proof fn lemma_rows_text_lines(rows: Seq<Seq<Seq<char>>>, k: int)
    requires
        0 <= k <= rows.len(),
        forall|r: int, i: int, j: int|
            0 <= r < rows.len() && 0 <= i < rows[r].len() && 0 <= j < rows[r][i].len() ==> (
            #[trigger] rows[r][i][j]) != ',' && rows[r][i][j] != '\n',
    ensures
        spec_split_char(spec_rows_text(rows.skip(rows.len() - k), k), '\n') == Seq::new(
            k as nat,
            |i: int| spec_join(rows[rows.len() - k + i], ","@),
        ).push(Seq::<char>::empty()),
    decreases k,
{
    let base = rows.len() - k;
    let tail = rows.skip(base);
    if k == 0 {
        assert(spec_rows_text(tail, 0) == Seq::<char>::empty());
        assert(spec_split_char(Seq::<char>::empty(), '\n') =~~= Seq::new(
            0nat,
            |i: int| spec_join(rows[base + i], ","@),
        ).push(Seq::<char>::empty()));
    } else {
        let line0 = spec_join(tail[0], ","@);
        assert(tail[0] == rows[base]);
        lemma_rows_text_front(tail, k);
        lemma_rows_text_lines(rows, k - 1);
        assert(rows.skip(rows.len() - (k - 1)) =~= tail.skip(1));
        assert forall|i: int, j: int|
            0 <= i < tail[0].len() && 0 <= j < tail[0][i].len() implies (#[trigger] tail[0][i][j])
            != ',' && tail[0][i][j] != '\n' by {}
        proof_comma_sep_has_no_newline();
        lemma_join_free(tail[0], ","@, '\n');
        lemma_split_char_concat(line0, spec_rows_text(tail.skip(1), k - 1), '\n');
        assert(spec_split_char(spec_rows_text(tail, k), '\n') =~~= Seq::new(
            k as nat,
            |i: int| spec_join(rows[base + i], ","@),
        ).push(Seq::<char>::empty()));
    }
}

/// The separator of fields holds no newline.
proof fn proof_comma_sep_has_no_newline()
    ensures
        forall|j: int| 0 <= j < ","@.len() ==> (#[trigger] ","@[j]) != '\n',
{
    reveal_strlit(",");
}

/// The rows' text, peeled from the front: the first line, a newline, and
/// the rest.
proof fn lemma_rows_text_front(rows: Seq<Seq<Seq<char>>>, k: int)
    requires
        1 <= k <= rows.len(),
    ensures
        spec_rows_text(rows, k) == spec_join(rows[0], ","@) + seq!['\n'] + spec_rows_text(
            rows.skip(1),
            k - 1,
        ),
    decreases k,
{
    if k == 1 {
        reveal_with_fuel(spec_rows_text, 3);
        assert(spec_rows_text(rows, 1) =~= spec_join(rows[0], ","@) + seq!['\n']
            + spec_rows_text(rows.skip(1), 0));
    } else {
        lemma_rows_text_front(rows, k - 1);
        assert(rows.skip(1)[k - 2] == rows[k - 1]);
        assert(spec_rows_text(rows, k) =~= spec_join(rows[0], ","@) + seq!['\n']
            + spec_rows_text(rows.skip(1), k - 1));
    }
}

/// A storable page read back from its own file text is the page itself:
/// the write-then-read round trip loses nothing.
pub proof fn lemma_page_round_trip(p: PageV)
    requires
        spec_page_storable(p),
    ensures
        spec_parse_page(spec_page_text(p)) == Some(p),
{
    let header_line = spec_join(p.header, ","@);
    let rows_text = spec_rows_text(p.rows, p.rows.len() as int);
    proof_comma_sep_has_no_newline();
    lemma_join_free(p.header, ","@, '\n');
    lemma_split_char_concat(header_line, rows_text, '\n');
    assert(spec_page_text(p) =~= header_line + seq!['\n'] + rows_text);
    assert(p.rows.skip(0) =~= p.rows);
    lemma_rows_text_lines(p.rows, p.rows.len() as int);
    let lines = spec_split_char(spec_page_text(p), '\n');
    assert(lines =~~= (seq![header_line] + Seq::new(
        p.rows.len(),
        |i: int| spec_join(p.rows[i], ","@),
    )).push(Seq::<char>::empty()));
    assert(lines.last().len() == 0);
    let kept = spec_page_lines(spec_page_text(p));
    assert(kept =~~= seq![header_line] + Seq::new(
        p.rows.len(),
        |i: int| spec_join(p.rows[i], ","@),
    ));
    assert(kept.len() == 1 + p.rows.len());
    assert(","@ =~= seq![',']) by {
        reveal_strlit(",");
    }
    lemma_split_join(p.header, ',');
    assert(header_line == spec_join(p.header, seq![',']));
    let back = spec_parse_page(spec_page_text(p))->Some_0;
    assert(back.header == p.header);
    assert forall|r: int| 0 <= r < p.rows.len() implies #[trigger] back.rows[r] == p.rows[r] by {
        assert(kept.skip(1)[r] == spec_join(p.rows[r], ","@));
        assert(spec_join(p.rows[r], ","@) == spec_join(p.rows[r], seq![',']));
        lemma_split_join(p.rows[r], ',');
    }
    assert(back.rows =~~= p.rows);
    assert(back =~~= p);
}

} // verus!
