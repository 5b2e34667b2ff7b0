//! Record assembly and field splitting for whitespace-delimited input, and the UTF-8
//! check that every field goes through.
use vstd::prelude::*;
use vstd::string::*;
use crate::text::utf8_str;
use vstd::utf8::{decode_utf8, valid_utf8};

verus! {

broadcast use vstd::string::group_string_axioms;

/// The double quote byte.
pub open spec fn quote() -> u8 {
    0x22u8
}

/// The number of double quotes in `b`.
pub open spec fn quote_count(b: Seq<u8>) -> nat
    decreases b.len(),
{
    if b.len() == 0 {
        0
    } else {
        quote_count(b.drop_last()) + if b.last() == quote() {
            1nat
        } else {
            0nat
        }
    }
}

/// Only the double quote byte (0x22) opens or closes quoting: `quote_count` is the number of
/// positions that hold that byte, whatever other bytes (an apostrophe, say) the input holds;
/// so bytes with no double quote never leave a line open.
pub proof fn law_quote_count_counts_double_quotes(b: Seq<u8>)
    ensures
        quote_count(b) == b.filter(|x: u8| x == 0x22u8).len(),
        (forall|i: int| 0 <= i < b.len() ==> b[i] != 0x22u8) ==> quote_count(b) == 0,
    decreases b.len(),
{
    if b.len() > 0 {
        law_quote_count_counts_double_quotes(b.drop_last());
        let f = |x: u8| x == 0x22u8;
        reveal(Seq::filter);
        assert(b.filter(f) == if f(b.last()) {
            b.drop_last().filter(f).push(b.last())
        } else {
            b.drop_last().filter(f)
        });
        if forall|i: int| 0 <= i < b.len() ==> b[i] != 0x22u8 {
            assert forall|i: int| 0 <= i < b.drop_last().len() implies b.drop_last()[i] != 0x22u8 by {
                assert(b.drop_last()[i] == b[i]);
            }
            assert(b[b.len() - 1] != 0x22u8);
        }
    }
}

proof fn lemma_quote_count_concat(a: Seq<u8>, b: Seq<u8>)
    ensures
        quote_count(a + b) == quote_count(a) + quote_count(b),
    decreases b.len(),
{
    if b.len() == 0 {
        assert(a + b == a);
    } else {
        lemma_quote_count_concat(a, b.drop_last());
        assert((a + b).drop_last() == a + b.drop_last());
    }
}

/// Collects the pieces of one logical line of input. A line may span several physical
/// lines when a newline falls inside double quotes.
pub struct LineReader {
    buffer: Vec<u8>,
    inside_quotes: bool,
}

impl LineReader {
    /// The bytes collected so far.
    pub closed spec fn content(&self) -> Seq<u8> {
        self.buffer@
    }

    /// Whether the collected bytes end inside double quotes.
    pub closed spec fn in_quotes(&self) -> bool {
        self.inside_quotes
    }

    /// The reader's state is consistent: it is inside quotes exactly when it has
    /// collected an odd number of double quotes.
    pub closed spec fn wf(&self) -> bool {
        self.inside_quotes == (quote_count(self.buffer@) % 2 == 1)
    }

    pub fn new() -> (r: LineReader)
        ensures
            r.wf(),
            r.content() == Seq::<u8>::empty(),
            !r.in_quotes(),
    {
        LineReader { buffer: Vec::new(), inside_quotes: false }
    }

    /// Starts a new line.
    pub fn clear(&mut self)
        ensures
            final(self).wf(),
            final(self).content() == Seq::<u8>::empty(),
            !final(self).in_quotes(),
    {
        self.buffer.clear();
        self.inside_quotes = false;
    }

    /// Adds the next piece read up to and including a newline (or to the end of input);
    /// returns whether the line is complete, that is, not inside double quotes.
    pub fn accept_chunk(&mut self, chunk: &[u8]) -> (complete: bool)
        requires
            old(self).wf(),
        ensures
            final(self).wf(),
            final(self).content() == old(self).content() + chunk@,
            final(self).in_quotes() == (quote_count(final(self).content()) % 2 == 1),
            complete == !final(self).in_quotes(),
    {
        let ghost before = self.buffer@;
        let mut i: usize = 0;
        while i < chunk.len()
            invariant
                i <= chunk@.len(),
                self.buffer@ == before + chunk@.take(i as int),
                self.inside_quotes == (quote_count(self.buffer@) % 2 == 1),
            decreases chunk@.len() - i,
        {
            let b = chunk[i];
            let ghost prev = self.buffer@;
            self.buffer.push(b);
            if b == 0x22u8 {
                self.inside_quotes = !self.inside_quotes;
            }
            assert(self.buffer@.drop_last() == prev);
            assert(chunk@.take(i + 1) == chunk@.take(i as int).push(b));
            i = i + 1;
        }
        assert(chunk@.take(chunk@.len() as int) == chunk@);
        !self.inside_quotes
    }

    /// The collected line, or `None` when nothing was collected (the end of input).
    pub fn line(&self) -> (r: Option<&[u8]>)
        ensures
            self.content().len() == 0 ==> r is None,
            self.content().len() > 0 ==> (r matches Some(l) && l@ == self.content()),
    {
        if self.buffer.len() == 0 {
            None
        } else {
            Some(self.buffer.as_slice())
        }
    }
}

/// The newline byte.
pub open spec fn newline() -> u8 {
    0x0au8
}

/// The length of the first physical line of `rest`: through its first newline, or all of it.
pub open spec fn physical_len(rest: Seq<u8>) -> nat
    decreases rest.len(),
{
    if rest.len() == 0 {
        0
    } else if rest[0] == newline() {
        1
    } else {
        1 + physical_len(rest.drop_first())
    }
}

pub proof fn lemma_physical_len(rest: Seq<u8>)
    ensures
        rest.len() > 0 ==> 1 <= physical_len(rest) <= rest.len(),
        rest.len() == 0 ==> physical_len(rest) == 0,
        forall|j: int| 0 <= j < physical_len(rest) - 1 ==> #[trigger] rest[j] != newline(),
        physical_len(rest) < rest.len() ==> rest[physical_len(rest) - 1] == newline(),
    decreases rest.len(),
{
    if rest.len() > 0 && rest[0] != newline() {
        let t = rest.drop_first();
        lemma_physical_len(t);
        assert forall|j: int| 0 <= j < physical_len(rest) - 1 implies #[trigger] rest[j]
            != newline() by {
            if j > 0 {
                assert(rest[j] == t[j - 1]);
            }
        }
        if physical_len(rest) < rest.len() {
            assert(rest[physical_len(rest) - 1] == t[physical_len(t) - 1]);
        }
    }
}

/// The logical line that reading gives when `content` has been collected and `rest` is
/// still to be read: physical lines are added, as `accept_chunk` adds them, until the
/// collected bytes hold an even number of double quotes or the input ends.
pub open spec fn assembled_line(content: Seq<u8>, rest: Seq<u8>) -> Seq<u8>
    decreases rest.len(),
{
    if rest.len() == 0 {
        content
    } else {
        proof {
            lemma_physical_len(rest);
        }
        let p = physical_len(rest) as int;
        let c = content + rest.take(p);
        if quote_count(c) % 2 == 0 {
            c
        } else {
            assembled_line(c, rest.skip(p))
        }
    }
}

/// Whether the first `k` bytes of `rest`, read after `content`, end a logical line: they
/// end in a newline and leave an even number of double quotes collected.
pub open spec fn ends_line(content: Seq<u8>, rest: Seq<u8>, k: int) -> bool {
    1 <= k <= rest.len() && rest[k - 1] == newline() && quote_count(content + rest.take(k)) % 2
        == 0
}

proof fn lemma_assembled_line(content: Seq<u8>, rest: Seq<u8>) -> (m: int)
    requires
        rest.len() > 0,
    ensures
        1 <= m <= rest.len(),
        assembled_line(content, rest) == content + rest.take(m),
        ends_line(content, rest, m) || m == rest.len(),
        forall|k: int| 1 <= k < m ==> !#[trigger] ends_line(content, rest, k),
    decreases rest.len(),
{
    lemma_physical_len(rest);
    let p = physical_len(rest) as int;
    let c = content + rest.take(p);
    assert forall|k: int| 1 <= k < p implies !#[trigger] ends_line(content, rest, k) by {
        assert(rest[k - 1] != newline());
    }
    if quote_count(c) % 2 == 0 || p == rest.len() {
        if p == rest.len() && quote_count(c) % 2 != 0 {
            assert(rest.skip(p).len() == 0);
            assert(assembled_line(c, rest.skip(p)) == c);
        }
        p
    } else {
        let r2 = rest.skip(p);
        let m2 = lemma_assembled_line(c, r2);
        assert forall|k2: int| 0 <= k2 <= r2.len() implies #[trigger] (content + rest.take(p
            + k2)) == c + r2.take(k2) by {
            assert(content + rest.take(p + k2) =~= c + r2.take(k2));
        }
        assert forall|k: int| 1 <= k < p + m2 implies !#[trigger] ends_line(content, rest, k) by {
            if k > p {
                assert(content + rest.take(p + (k - p)) == c + r2.take(k - p));
                assert(rest[k - 1] == r2[k - p - 1]);
                assert(!ends_line(c, r2, k - p));
            } else if k == p {
                assert(rest.take(k) == rest.take(p));
            }
        }
        assert(content + rest.take(p + m2) == c + r2.take(m2));
        if ends_line(c, r2, m2) {
            assert(rest[p + m2 - 1] == r2[m2 - 1]);
        }
        p + m2
    }
}

/// Reading a line from the start of `rest` gives its shortest prefix that ends in a newline
/// outside double quotes (an even number of double quotes up to it), or all of `rest` when
/// there is none.
pub proof fn law_read_line(rest: Seq<u8>)
    requires
        rest.len() > 0,
    ensures
        ({
            let l = assembled_line(Seq::empty(), rest);
            &&& 1 <= l.len() <= rest.len()
            &&& l == rest.take(l.len() as int)
            &&& ends_line(Seq::empty(), rest, l.len() as int) || l.len() == rest.len()
            &&& forall|k: int| 1 <= k < l.len() ==> !#[trigger] ends_line(Seq::empty(), rest, k)
        }),
{
    let m = lemma_assembled_line(Seq::empty(), rest);
    assert(Seq::<u8>::empty() + rest.take(m) =~= rest.take(m));
}

/// The logical lines that reading the whole of `input` gives, one after another.
pub open spec fn logical_lines(input: Seq<u8>) -> Seq<Seq<u8>>
    decreases input.len(),
{
    if input.len() == 0 {
        Seq::empty()
    } else {
        proof {
            law_read_line(input);
        }
        let l = assembled_line(Seq::empty(), input);
        seq![l] + logical_lines(input.skip(l.len() as int))
    }
}

/// Reading the whole input line by line loses nothing and adds nothing: the logical lines
/// are non-empty and, put back together, are the input.
pub proof fn law_lines_cover_input(input: Seq<u8>)
    ensures
        logical_lines(input).flatten() == input,
        forall|i: int| 0 <= i < logical_lines(input).len() ==> #[trigger] logical_lines(input)[i].len() > 0,
    decreases input.len(),
{
    if input.len() > 0 {
        law_read_line(input);
        let l = assembled_line(Seq::empty(), input);
        let rest = input.skip(l.len() as int);
        law_lines_cover_input(rest);
        let ls = logical_lines(input);
        assert(ls == seq![l] + logical_lines(rest));
        assert(ls.first() == l);
        assert(ls.drop_first() =~= logical_lines(rest));
        assert(input =~= l + rest);
        assert forall|i: int| 0 <= i < ls.len() implies #[trigger] ls[i].len() > 0 by {
            if i > 0 {
                assert(ls[i] == logical_lines(rest)[i - 1]);
            }
        }
    }
}

/// Whether `b` is ASCII whitespace in the sense of `u8::is_ascii_whitespace`.
pub open spec fn is_ascii_ws(b: u8) -> bool {
    b == 0x20u8 || b == 0x09u8 || b == 0x0au8 || b == 0x0cu8 || b == 0x0du8
}

/// The state after scanning the first `i` bytes of a line: whether inside quotes, where
/// the current field starts, and the fields (as ranges) completed so far.
pub open spec fn scan(line: Seq<u8>, i: int) -> (bool, int, Seq<(int, int)>)
    decreases i,
{
    if i <= 0 {
        (false, 0, Seq::empty())
    } else {
        let prev = scan(line, i - 1);
        let b = line[i - 1];
        if b == quote() {
            (!prev.0, prev.1, prev.2)
        } else if is_ascii_ws(b) && !prev.0 {
            (prev.0, i, if prev.1 < i - 1 { prev.2.push((prev.1, i - 1)) } else { prev.2 })
        } else {
            prev
        }
    }
}

/// The ranges of the fields of a line: maximal non-empty runs of bytes between ASCII
/// whitespace that is outside double quotes.
pub open spec fn raw_field_ranges(line: Seq<u8>) -> Seq<(int, int)> {
    let s = scan(line, line.len() as int);
    if s.1 < line.len() {
        s.2.push((s.1, line.len() as int))
    } else {
        s.2
    }
}

/// A field without the double quotes that surround it, if it has two ends that are quotes
/// (a lone double quote stays as it is).
pub open spec fn strip_quotes(f: Seq<u8>) -> Seq<u8> {
    if f.len() >= 2 && f[0] == quote() && f.last() == quote() {
        f.subrange(1, f.len() - 1)
    } else {
        f
    }
}

/// The fields of a whitespace-delimited line.
pub open spec fn whitespace_fields(line: Seq<u8>) -> Seq<Seq<u8>> {
    raw_field_ranges(line).map_values(|r: (int, int)| strip_quotes(line.subrange(r.0, r.1)))
}

proof fn lemma_scan_bounds(line: Seq<u8>, i: int)
    requires
        0 <= i <= line.len(),
    ensures
        0 <= scan(line, i).1 <= i,
        forall|k: int|
            0 <= k < scan(line, i).2.len() ==> 0 <= (#[trigger] scan(line, i).2[k]).0 < scan(
                line,
                i,
            ).2[k].1 <= i,
    decreases i,
{
    if i > 0 {
        lemma_scan_bounds(line, i - 1);
    }
}

proof fn lemma_scan_prefix(line: Seq<u8>, i: int, j: int)
    requires
        0 <= i <= j <= line.len(),
    ensures
        scan(line, i).2.len() <= scan(line, j).2.len(),
        forall|k: int| 0 <= k < scan(line, i).2.len() ==> #[trigger] scan(line, j).2[k] == scan(line, i).2[k],
    decreases j - i,
{
    if i < j {
        lemma_scan_prefix(line, i, j - 1);
    }
}

/// Whether `line[a..b]` is a maximal run of bytes that are not ASCII whitespace: it is not
/// empty, holds no whitespace, and has whitespace (or the end of the line) on both sides.
pub open spec fn is_word_run(line: Seq<u8>, a: int, b: int) -> bool {
    &&& 0 <= a < b <= line.len()
    &&& forall|i: int| a <= i < b ==> !is_ascii_ws(#[trigger] line[i])
    &&& a == 0 || is_ascii_ws(line[a - 1])
    &&& b == line.len() || is_ascii_ws(line[b])
}

/// Whether byte `j` of `line` separates fields: it is ASCII whitespace and the bytes before
/// it hold an even number of double quotes (it is outside quotes).
pub open spec fn separates(line: Seq<u8>, j: int) -> bool {
    is_ascii_ws(line[j]) && quote_count(line.take(j)) % 2 == 0
}

/// Whether `line[a..b]` is a maximal non-empty run of bytes that do not separate fields.
pub open spec fn is_token_run(line: Seq<u8>, a: int, b: int) -> bool {
    &&& 0 <= a < b <= line.len()
    &&& forall|i: int| a <= i < b ==> !#[trigger] separates(line, i)
    &&& a == 0 || separates(line, a - 1)
    &&& b == line.len() || separates(line, b)
}

proof fn lemma_scan_tokens(line: Seq<u8>, i: int)
    requires
        0 <= i <= line.len(),
    ensures
        scan(line, i).0 == (quote_count(line.take(i)) % 2 == 1),
        0 <= scan(line, i).1 <= i,
        scan(line, i).1 == 0 || separates(line, scan(line, i).1 - 1),
        forall|j: int| scan(line, i).1 <= j < i ==> !#[trigger] separates(line, j),
        forall|q: int|
            0 <= q < scan(line, i).2.len() ==> is_token_run(
                line,
                (#[trigger] scan(line, i).2[q]).0,
                scan(line, i).2[q].1,
            ) && scan(line, i).2[q].1 < scan(line, i).1,
        forall|q: int, r: int|
            0 <= q < r < scan(line, i).2.len() ==> (#[trigger] scan(line, i).2[q]).1 < (
            #[trigger] scan(line, i).2[r]).0,
        forall|j: int|
            0 <= j < scan(line, i).1 && !#[trigger] separates(line, j) ==> exists|q: int|
                0 <= q < scan(line, i).2.len() && (#[trigger] scan(line, i).2[q]).0 <= j < scan(
                    line,
                    i,
                ).2[q].1,
    decreases i,
{
    if i == 0 {
        assert(line.take(0) =~= Seq::<u8>::empty());
    } else {
        lemma_scan_tokens(line, i - 1);
        let prev = scan(line, i - 1);
        let cur = scan(line, i);
        let b = line[i - 1];
        assert(line.take(i).drop_last() =~= line.take(i - 1));
        assert(line.take(i).last() == b);
        assert(separates(line, i - 1) == (is_ascii_ws(b) && !prev.0));
        if b != quote() && is_ascii_ws(b) && !prev.0 {
            if prev.1 < i - 1 {
                let run = (prev.1, i - 1);
                assert(cur.2 == prev.2.push(run));
                assert(is_token_run(line, run.0, run.1));
                assert forall|q: int| 0 <= q < cur.2.len() implies is_token_run(
                    line,
                    (#[trigger] cur.2[q]).0,
                    cur.2[q].1,
                ) && cur.2[q].1 < cur.1 by {
                    if q < prev.2.len() {
                        assert(cur.2[q] == prev.2[q]);
                    }
                }
                assert forall|q: int, r: int| 0 <= q < r < cur.2.len() implies (
                #[trigger] cur.2[q]).1 < (#[trigger] cur.2[r]).0 by {
                    assert(cur.2[q] == prev.2[q]);
                    if r < prev.2.len() {
                        assert(cur.2[r] == prev.2[r]);
                    }
                }
                assert forall|j: int|
                    0 <= j < cur.1 && !#[trigger] separates(line, j) implies exists|q: int|
                    0 <= q < cur.2.len() && (#[trigger] cur.2[q]).0 <= j < cur.2[q].1 by {
                    if j < prev.1 {
                        let q = choose|q: int|
                            0 <= q < prev.2.len() && (#[trigger] prev.2[q]).0 <= j < prev.2[q].1;
                        assert(cur.2[q] == prev.2[q]);
                    } else {
                        assert(cur.2[prev.2.len() as int] == run);
                    }
                }
            } else {
                assert(cur.2 == prev.2);
            }
        } else {
            assert(cur.1 == prev.1 && cur.2 == prev.2);
        }
    }
}

/// Whether `fields` come from the maximal runs `rs` of bytes that do not separate fields,
/// in order: each field is its run, without the double quotes around it when the run starts
/// and ends with one (and is longer than one byte); the runs do not touch, and every byte
/// that does not separate lies in one of them.
pub open spec fn fields_are_token_runs(line: Seq<u8>, fields: Seq<Seq<u8>>, rs: Seq<(int, int)>) -> bool {
    &&& rs.len() == fields.len()
    &&& forall|q: int|
        0 <= q < rs.len() ==> is_token_run(line, (#[trigger] rs[q]).0, rs[q].1) && fields[q] == (
        if rs[q].1 - rs[q].0 >= 2 && line[rs[q].0] == 0x22u8 && line[rs[q].1 - 1] == 0x22u8 {
            line.subrange(rs[q].0 + 1, rs[q].1 - 1)
        } else {
            line.subrange(rs[q].0, rs[q].1)
        })
    &&& forall|q: int, r: int| 0 <= q < r < rs.len() ==> (#[trigger] rs[q]).1 < (#[trigger] rs[r]).0
    &&& forall|j: int|
        0 <= j < line.len() && !#[trigger] separates(line, j) ==> exists|q: int|
            0 <= q < rs.len() && (#[trigger] rs[q]).0 <= j < rs[q].1
}

/// A line splits exactly at ASCII whitespace outside double quotes: its fields are its
/// maximal runs of other bytes, in order, each without the double quotes around it.
pub proof fn law_fields_split_at_whitespace_outside_quotes(line: Seq<u8>)
    ensures
        exists|rs: Seq<(int, int)>| #[trigger] fields_are_token_runs(line, whitespace_fields(line), rs),
{
    let n = line.len() as int;
    lemma_scan_tokens(line, n);
    let s = scan(line, n);
    let rs = raw_field_ranges(line);
    if s.1 < n {
        assert(rs == s.2.push((s.1, n)));
        assert(is_token_run(line, s.1, n));
    } else {
        assert(rs == s.2);
    }
    let wf = whitespace_fields(line);
    assert forall|q: int| 0 <= q < rs.len() implies is_token_run(line, (#[trigger] rs[q]).0, rs[q].1)
        && wf[q] == (if rs[q].1 - rs[q].0 >= 2 && line[rs[q].0] == 0x22u8 && line[rs[q].1 - 1]
        == 0x22u8 {
        line.subrange(rs[q].0 + 1, rs[q].1 - 1)
    } else {
        line.subrange(rs[q].0, rs[q].1)
    }) by {
        if q < s.2.len() {
            assert(rs[q] == s.2[q]);
        }
        let f = line.subrange(rs[q].0, rs[q].1);
        assert(f[0] == line[rs[q].0]);
        if f.len() >= 1 {
            assert(f.last() == line[rs[q].1 - 1]);
        }
        if f.len() >= 2 {
            assert(f.subrange(1, f.len() - 1) =~= line.subrange(rs[q].0 + 1, rs[q].1 - 1));
        }
    }
    assert forall|q: int, r: int| 0 <= q < r < rs.len() implies (#[trigger] rs[q]).1 < (
    #[trigger] rs[r]).0 by {
        assert(rs[q] == s.2[q]);
        if r < s.2.len() {
            assert(rs[r] == s.2[r]);
        }
    }
    assert forall|j: int| 0 <= j < line.len() && !#[trigger] separates(line, j) implies exists|
        q: int,
    | 0 <= q < rs.len() && (#[trigger] rs[q]).0 <= j < rs[q].1 by {
        if j < s.1 {
            let q = choose|q: int| 0 <= q < s.2.len() && (#[trigger] s.2[q]).0 <= j < s.2[q].1;
            assert(rs[q] == s.2[q]);
        } else {
            assert(rs[s.2.len() as int] == (s.1, n));
        }
    }
    assert(fields_are_token_runs(line, wf, rs));
}

/// Whether `fields` are the maximal runs `rs` of non-whitespace bytes of `line`, in order:
/// each field is the bytes of its run, the runs do not touch, and every non-whitespace byte
/// lies in one of them.
pub open spec fn fields_are_word_runs(line: Seq<u8>, fields: Seq<Seq<u8>>, rs: Seq<(int, int)>) -> bool {
    &&& rs.len() == fields.len()
    &&& forall|q: int|
        0 <= q < rs.len() ==> is_word_run(line, (#[trigger] rs[q]).0, rs[q].1) && fields[q]
            == line.subrange(rs[q].0, rs[q].1)
    &&& forall|q: int, r: int| 0 <= q < r < rs.len() ==> (#[trigger] rs[q]).1 < (#[trigger] rs[r]).0
    &&& forall|j: int|
        0 <= j < line.len() && !is_ascii_ws(#[trigger] line[j]) ==> exists|q: int|
            0 <= q < rs.len() && (#[trigger] rs[q]).0 <= j < rs[q].1
}

/// A line with no double quote splits at runs of ASCII whitespace and nowhere else: its
/// fields are exactly its maximal runs of non-whitespace bytes, in order, each taken whole
/// (an apostrophe or any other byte but `"` is an ordinary field byte).
pub proof fn law_quote_free_fields_are_words(line: Seq<u8>)
    requires
        forall|j: int| 0 <= j < line.len() ==> line[j] != 0x22u8,
    ensures
        exists|rs: Seq<(int, int)>| #[trigger] fields_are_word_runs(line, whitespace_fields(line), rs),
{
    law_fields_split_at_whitespace_outside_quotes(line);
    let wf = whitespace_fields(line);
    let rs = choose|rs: Seq<(int, int)>| #[trigger] fields_are_token_runs(line, wf, rs);
    assert forall|j: int| 0 <= j < line.len() implies #[trigger] separates(line, j) == is_ascii_ws(
        line[j],
    ) by {
        assert forall|i: int| 0 <= i < line.take(j).len() implies line.take(j)[i] != 0x22u8 by {
            assert(line.take(j)[i] == line[i]);
        }
        law_quote_count_counts_double_quotes(line.take(j));
    }
    assert forall|q: int| 0 <= q < rs.len() implies is_word_run(line, (#[trigger] rs[q]).0, rs[q].1)
        && wf[q] == line.subrange(rs[q].0, rs[q].1) by {
        let (a, b) = rs[q];
        assert(is_token_run(line, a, b));
        assert forall|i: int| a <= i < b implies !is_ascii_ws(#[trigger] line[i]) by {
            assert(!separates(line, i));
        }
        if a > 0 {
            assert(separates(line, a - 1));
        }
        if b < line.len() {
            assert(separates(line, b));
        }
        assert(line[a] != 0x22u8);
    }
    assert forall|j: int| 0 <= j < line.len() && !is_ascii_ws(#[trigger] line[j]) implies exists|
        q: int,
    | 0 <= q < rs.len() && (#[trigger] rs[q]).0 <= j < rs[q].1 by {
        assert(!separates(line, j));
    }
    assert(fields_are_word_runs(line, wf, rs));
}

/// A copy of `b[lo..hi]`.
pub fn copy_range(b: &[u8], lo: usize, hi: usize) -> (r: Vec<u8>)
    requires
        lo <= hi <= b@.len(),
    ensures
        r@ == b@.subrange(lo as int, hi as int),
{
    let mut r: Vec<u8> = Vec::new();
    let mut i = lo;
    while i < hi
        invariant
            lo <= i <= hi <= b@.len(),
            r@ == b@.subrange(lo as int, i as int),
        decreases hi - i,
    {
        r.push(b[i]);
        i = i + 1;
    }
    r
}

/// The field `line[start..end]`, without surrounding double quotes.
fn field_of(line: &[u8], start: usize, end: usize) -> (r: Vec<u8>)
    requires
        start < end <= line@.len(),
    ensures
        r@ == strip_quotes(line@.subrange(start as int, end as int)),
{
    if end - start >= 2 && line[start] == 0x22u8 && line[end - 1] == 0x22u8 {
        copy_range(line, start + 1, end - 1)
    } else {
        copy_range(line, start, end)
    }
}

/// The ranges of the fields of a line.
fn field_ranges(line: &[u8]) -> (r: Vec<(usize, usize)>)
    ensures
        r@.len() == raw_field_ranges(line@).len(),
        forall|q: int|
            0 <= q < r@.len() ==> (#[trigger] r@[q]).0 == raw_field_ranges(line@)[q].0 && r@[q].1
                == raw_field_ranges(line@)[q].1 && r@[q].0 < r@[q].1 <= line@.len(),
{
    let n = line.len();
    let mut inside = false;
    let mut start: usize = 0;
    let mut ranges: Vec<(usize, usize)> = Vec::new();
    let mut i: usize = 0;
    while i < n
        invariant
            n == line@.len(),
            i <= n,
            inside == scan(line@, i as int).0,
            start == scan(line@, i as int).1,
            ranges@.len() == scan(line@, i as int).2.len(),
            forall|q: int|
                0 <= q < ranges@.len() ==> (#[trigger] ranges@[q]).0 == scan(line@, i as int).2[q].0
                    && ranges@[q].1 == scan(line@, i as int).2[q].1,
        decreases n - i,
    {
        proof {
            lemma_scan_bounds(line@, i as int);
        }
        let b = line[i];
        if b == 0x22u8 {
            inside = !inside;
        } else if (b == 0x20u8 || b == 0x09u8 || b == 0x0au8 || b == 0x0cu8 || b == 0x0du8) && !inside {
            if start < i {
                ranges.push((start, i));
            }
            start = i + 1;
        }
        i = i + 1;
    }
    proof {
        lemma_scan_bounds(line@, n as int);
    }
    if start < n {
        ranges.push((start, n));
    }
    proof {
        assert forall|q: int| 0 <= q < ranges@.len() implies (#[trigger] ranges@[q]).0 < ranges@[q].1 <= line@.len() by {
            assert(0 <= raw_field_ranges(line@)[q].0 < raw_field_ranges(line@)[q].1 <= line@.len());
        }
    }
    ranges
}

/// Splits a line into fields at ASCII whitespace outside double quotes, dropping empty
/// fields and the double quotes around a field (a lone double quote is kept as a field).
pub fn split_whitespace_line(line: &[u8]) -> (r: Vec<Vec<u8>>)
    ensures
        r@.map_values(|f: Vec<u8>| f@) == whitespace_fields(line@),
{
    let ranges = field_ranges(line);
    let mut fields: Vec<Vec<u8>> = Vec::new();
    let mut k: usize = 0;
    while k < ranges.len()
        invariant
            ranges@.len() == raw_field_ranges(line@).len(),
            forall|q: int|
                0 <= q < ranges@.len() ==> (#[trigger] ranges@[q]).0 == raw_field_ranges(line@)[q].0
                    && ranges@[q].1 == raw_field_ranges(line@)[q].1 && ranges@[q].0 < ranges@[q].1
                    <= line@.len(),
            k <= ranges@.len(),
            fields@.map_values(|f: Vec<u8>| f@) == whitespace_fields(line@).take(k as int),
        decreases ranges@.len() - k,
    {
        let (a, b) = ranges[k];
        assert(raw_field_ranges(line@)[k as int] == (a as int, b as int));
        let f = field_of(line, a, b);
        let ghost old_fields = fields@.map_values(|f: Vec<u8>| f@);
        fields.push(f);
        assert(fields@.map_values(|f: Vec<u8>| f@) =~= old_fields.push(f@));
        assert(whitespace_fields(line@).take(k + 1) =~= whitespace_fields(line@).take(k as int).push(f@));
        k = k + 1;
    }
    assert(whitespace_fields(line@).take(ranges@.len() as int) =~= whitespace_fields(line@));
    fields
}

/// The fields as strings, or the position of the first field that is not valid UTF-8.
pub fn fields_from_bytes(raw: &[Vec<u8>]) -> (r: Result<Vec<String>, usize>)
    ensures
        r matches Ok(v) ==> (v@.len() == raw@.len() && forall|i: int|
            0 <= i < raw@.len() ==> valid_utf8(raw@[i]@) && (#[trigger] v@[i])@ == decode_utf8(
                raw@[i]@,
            )),
        r matches Err(k) ==> (k < raw@.len() && !valid_utf8(raw@[k as int]@) && forall|i: int|
            0 <= i < k ==> valid_utf8((#[trigger] raw@[i])@)),
{
    let mut v: Vec<String> = Vec::new();
    let mut i: usize = 0;
    while i < raw.len()
        invariant
            i <= raw@.len(),
            v@.len() == i,
            forall|j: int| 0 <= j < i ==> valid_utf8((#[trigger] raw@[j])@),
            forall|j: int| 0 <= j < i ==> (#[trigger] v@[j])@ == decode_utf8(raw@[j]@),
        decreases raw@.len() - i,
    {
        let bytes = raw[i].as_slice();
        assert(bytes@ == raw@[i as int]@);
        match utf8_str(bytes) {
            Some(s) => {
                let t = s.to_owned();
                v.push(t);
                assert(v@[i as int]@ == decode_utf8(raw@[i as int]@));
            },
            None => {
                return Err(i);
            },
        }
        i = i + 1;
    }
    Ok(v)
}

} // verus!
