//! Reading transaction records from comma-separated text.
//!
//! The input is a header line naming the columns `type`, `client`, `tx` and
//! `amount` in any order, then one line per transaction. Fields are trimmed
//! of surrounding whitespace, a row may leave out trailing fields, and lines
//! that are empty or start with `#` are skipped.
use crate::currency::{plain_decimal, plain_decimal_value, rejected_literal, Currency};
use crate::error::AppError;
use crate::types::{ClientId, Transaction, TransactionId, TransactionType};
use vstd::prelude::*;
use vstd::slice::slice_to_vec;
use vstd::utf8::{decode_utf8, valid_utf8};

verus! {

/// Whether `needle` occurs in `haystack` at position `i`.
pub open spec fn occurs_at(needle: Seq<u8>, haystack: Seq<u8>, i: int) -> bool {
    0 <= i && i + needle.len() <= haystack.len() && haystack.subrange(i, i + needle.len())
        == needle
}

/// Whether `needle` occurs in `haystack` at position `i`.
fn occurs_here(needle: &[u8], haystack: &[u8], i: usize) -> (r: bool)
    requires
        i + needle@.len() <= haystack@.len(),
    ensures
        r == occurs_at(needle@, haystack@, i as int),
{
    let n = needle.len();
    let hl = haystack.len();
    let mut k: usize = 0;
    while k < n
        invariant
            n == needle@.len(),
            hl == haystack@.len(),
            i + n <= haystack@.len(),
            k <= n,
            forall|m: int| 0 <= m < k ==> haystack@[i + m] == needle@[m],
        decreases n - k,
    {
        if haystack[i + k] != needle[k] {
            assert(haystack@.subrange(i as int, i + n)[k as int] != needle@[k as int]);
            return false;
        }
        k = k + 1;
    }
    assert(haystack@.subrange(i as int, i + n) =~= needle@);
    true
}

/// Find a `needle` in a `haystack`: the first position where it occurs.
pub fn find(needle: &[u8], haystack: &[u8]) -> (r: Option<usize>)
    requires
        needle@.len() > 0,
    ensures
        match r {
            Some(i) => occurs_at(needle@, haystack@, i as int) && forall|j: int|
                0 <= j < i ==> !occurs_at(needle@, haystack@, j),
            None => forall|j: int| 0 <= j ==> !occurs_at(needle@, haystack@, j),
        },
{
    let n = needle.len();
    if haystack.len() < n {
        return None;
    }
    let mut i: usize = 0;
    let hl = haystack.len();
    while i <= hl - n
        invariant
            n == needle@.len(),
            n > 0,
            hl == haystack@.len(),
            n <= haystack@.len(),
            i <= haystack@.len() - n + 1,
            forall|j: int| 0 <= j < i ==> !occurs_at(needle@, haystack@, j),
        decreases haystack@.len() - n + 1 - i,
    {
        if occurs_here(needle, haystack, i) {
            return Some(i);
        }
        i = i + 1;
    }
    assert forall|j: int| 0 <= j implies !occurs_at(needle@, haystack@, j) by {
        if j >= i {
            assert(j + n > haystack@.len());
        }
    }
    None
}

/// Bytes of input that have come in, from which whole lines are taken.
pub struct LineBuffer {
    bytes: Vec<u8>,
    start: usize,
}

/// A needle of one byte occurs where that byte stands.
proof fn lemma_occurs_single(needle: Seq<u8>, s: Seq<u8>, j: int)
    requires
        needle.len() == 1,
    ensures
        occurs_at(needle, s, j) <==> (0 <= j < s.len() && s[j] == needle[0]),
{
    if occurs_at(needle, s, j) {
        assert(s.subrange(j, j + 1)[0] == s[j]);
    }
    if 0 <= j < s.len() && s[j] == needle[0] {
        assert(s.subrange(j, j + 1) =~= needle);
    }
}

impl View for LineBuffer {
    type V = Seq<u8>;

    /// The bytes not yet taken as lines.
    closed spec fn view(&self) -> Seq<u8> {
        self.bytes@.subrange(self.start as int, self.bytes@.len() as int)
    }
}

impl LineBuffer {
    pub closed spec fn wf(&self) -> bool {
        self.start <= self.bytes@.len()
    }

    pub fn new() -> (r: LineBuffer)
        ensures
            r.wf(),
            r@ == Seq::<u8>::empty(),
    {
        let r = LineBuffer { bytes: Vec::new(), start: 0 };
        assert(r@ =~= Seq::<u8>::empty());
        r
    }

    /// Appends bytes that have been read.
    pub fn push(&mut self, chunk: &[u8])
        requires
            old(self).wf(),
        ensures
            final(self).wf(),
            final(self)@ == old(self)@ + chunk@,
    {
        let mut rest = slice_to_vec(&self.bytes.as_slice()[self.start..self.bytes.len()]);
        let mut more = slice_to_vec(chunk);
        rest.append(&mut more);
        self.bytes = rest;
        self.start = 0;
        assert(self@ =~= old(self)@ + chunk@);
    }

    /// Takes the next whole line, without its newline, if one has come in.
    pub fn next_line(&mut self) -> (r: Option<Vec<u8>>)
        requires
            old(self).wf(),
        ensures
            final(self).wf(),
            match r {
                Some(line) => {
                    let i = line@.len() as int;
                    &&& i < old(self)@.len()
                    &&& old(self)@[i] == 10u8
                    &&& forall|j: int| 0 <= j < i ==> old(self)@[j] != 10u8
                    &&& line@ == old(self)@.subrange(0, i)
                    &&& final(self)@ == old(self)@.subrange(i + 1, old(self)@.len() as int)
                },
                None => {
                    &&& forall|j: int| 0 <= j < old(self)@.len() ==> old(self)@[j] != 10u8
                    &&& final(self)@ == old(self)@
                },
            },
    {
        let newline: Vec<u8> = vec![10u8];
        assert(newline@.len() == 1 && newline@[0] == 10u8);
        let pending = &self.bytes.as_slice()[self.start..self.bytes.len()];
        match find(newline.as_slice(), pending) {
            Some(i) => {
                proof {
                    lemma_occurs_single(newline@, pending@, i as int);
                    assert forall|j: int| 0 <= j < i implies pending@[j] != 10u8 by {
                        lemma_occurs_single(newline@, pending@, j);
                    }
                }
                let line = slice_to_vec(&pending[0..i]);
                self.start = self.start + i + 1;
                assert(self@ =~= old(self)@.subrange(i + 1, old(self)@.len() as int));
                Some(line)
            },
            None => {
                proof {
                    assert forall|j: int| 0 <= j < pending@.len() implies pending@[j] != 10u8 by {
                        lemma_occurs_single(newline@, pending@, j);
                    }
                }
                None
            },
        }
    }

    /// Takes what is left once the input has ended: a last line without a
    /// newline, if there is one.
    pub fn take_rest(&mut self) -> (r: Option<Vec<u8>>)
        requires
            old(self).wf(),
        ensures
            final(self).wf(),
            final(self)@ == Seq::<u8>::empty(),
            old(self)@.len() == 0 ==> r is None,
            old(self)@.len() > 0 ==> (r matches Some(line) && line@ == old(self)@),
    {
        if self.start == self.bytes.len() {
            assert(self@ =~= Seq::<u8>::empty());
            return None;
        }
        let line = slice_to_vec(&self.bytes.as_slice()[self.start..self.bytes.len()]);
        self.bytes = Vec::new();
        self.start = 0;
        assert(self@ =~= Seq::<u8>::empty());
        Some(line)
    }
}

} // verus!

verus! {

/// ASCII whitespace.
pub open spec fn is_space(b: u8) -> bool {
    b == 32u8 || b == 9u8 || b == 10u8 || b == 11u8 || b == 12u8 || b == 13u8
}

/// The number of bytes before the first comma (all of `s` without one).
pub open spec fn field_len(s: Seq<u8>) -> nat
    decreases s.len(),
{
    if s.len() == 0 || s[0] == 44u8 {
        0
    } else {
        1 + field_len(s.subrange(1, s.len() as int))
    }
}

/// The comma-separated fields of a line, untrimmed.
pub open spec fn split_fields(s: Seq<u8>) -> Seq<Seq<u8>>
    decreases s.len(),
{
    let n = field_len(s);
    if n >= s.len() {
        seq![s]
    } else {
        seq![s.subrange(0, n as int)] + split_fields(s.subrange(n as int + 1, s.len() as int))
    }
}

/// `s` without leading whitespace.
pub open spec fn trim_start(s: Seq<u8>) -> Seq<u8>
    decreases s.len(),
{
    if s.len() > 0 && is_space(s[0]) {
        trim_start(s.subrange(1, s.len() as int))
    } else {
        s
    }
}

/// `s` without trailing whitespace.
pub open spec fn trim_end(s: Seq<u8>) -> Seq<u8>
    decreases s.len(),
{
    if s.len() > 0 && is_space(s.last()) {
        trim_end(s.drop_last())
    } else {
        s
    }
}

pub open spec fn trimmed(s: Seq<u8>) -> Seq<u8> {
    trim_end(trim_start(s))
}

/// The fields of a line, each trimmed.
pub open spec fn line_fields(line: Seq<u8>) -> Seq<Seq<u8>> {
    split_fields(line).map_values(|f: Seq<u8>| trimmed(f))
}

proof fn lemma_field_len(s: Seq<u8>, n: int)
    requires
        0 <= n <= s.len(),
        forall|i: int| 0 <= i < n ==> s[i] != 44u8,
        n == s.len() || s[n] == 44u8,
    ensures
        field_len(s) == n,
    decreases n,
{
    if n > 0 {
        let t = s.subrange(1, s.len() as int);
        assert forall|i: int| 0 <= i < n - 1 implies t[i] != 44u8 by {
            assert(t[i] == s[i + 1]);
        }
        lemma_field_len(t, n - 1);
    }
}

proof fn lemma_trim_start(s: Seq<u8>, a: int)
    requires
        0 <= a <= s.len(),
        forall|i: int| 0 <= i < a ==> is_space(s[i]),
        a == s.len() || !is_space(s[a]),
    ensures
        trim_start(s) == s.subrange(a, s.len() as int),
    decreases a,
{
    if a == 0 {
        assert(s.subrange(0, s.len() as int) =~= s);
    } else {
        let t = s.subrange(1, s.len() as int);
        assert forall|i: int| 0 <= i < a - 1 implies is_space(t[i]) by {
            assert(t[i] == s[i + 1]);
        }
        lemma_trim_start(t, a - 1);
        assert(t.subrange(a - 1, t.len() as int) =~= s.subrange(a, s.len() as int));
    }
}

proof fn lemma_trim_end(s: Seq<u8>, b: int)
    requires
        0 <= b <= s.len(),
        forall|i: int| b <= i < s.len() ==> is_space(s[i]),
        b == 0 || !is_space(s[b - 1]),
    ensures
        trim_end(s) == s.subrange(0, b),
    decreases s.len() - b,
{
    if b == s.len() {
        assert(s.subrange(0, b) =~= s);
    } else {
        let t = s.drop_last();
        lemma_trim_end(t, b);
        assert(t.subrange(0, b) =~= s.subrange(0, b));
    }
}

/// The end of the field that starts at `start`: the next comma, or the end.
fn field_end(line: &[u8], start: usize) -> (r: usize)
    requires
        start <= line@.len(),
    ensures
        r == start + field_len(line@.subrange(start as int, line@.len() as int)),
        start <= r <= line@.len(),
        r < line@.len() ==> line@[r as int] == 44u8,
{
    let len = line.len();
    let mut i = start;
    while i < len && line[i] != 44u8
        invariant
            len == line@.len(),
            start <= i <= len,
            forall|k: int| start <= k < i ==> line@[k] != 44u8,
        decreases len - i,
    {
        i = i + 1;
    }
    proof {
        let s = line@.subrange(start as int, len as int);
        assert forall|k: int| 0 <= k < i - start implies s[k] != 44u8 by {
            assert(s[k] == line@[start + k]);
        }
        lemma_field_len(s, i - start);
    }
    i
}

/// The bounds of `line[start..end]` without surrounding whitespace.
fn trim_bounds(line: &[u8], start: usize, end: usize) -> (r: (usize, usize))
    requires
        start <= end <= line@.len(),
    ensures
        start <= r.0 <= r.1 <= end,
        line@.subrange(r.0 as int, r.1 as int) == trimmed(line@.subrange(start as int, end as int)),
{
    let mut a = start;
    while a < end && is_space_byte(line[a])
        invariant
            start <= a <= end,
            end <= line@.len(),
            forall|k: int| start <= k < a ==> is_space(line@[k]),
        decreases end - a,
    {
        a = a + 1;
    }
    let mut b = end;
    while b > a && is_space_byte(line[b - 1])
        invariant
            a <= b <= end,
            end <= line@.len(),
            forall|k: int| b <= k < end ==> is_space(line@[k]),
        decreases b - a,
    {
        b = b - 1;
    }
    proof {
        let s = line@.subrange(start as int, end as int);
        assert forall|k: int| 0 <= k < a - start implies is_space(s[k]) by {
            assert(s[k] == line@[start + k]);
        }
        lemma_trim_start(s, a - start);
        let t = s.subrange(a - start, s.len() as int);
        assert(t =~= line@.subrange(a as int, end as int));
        assert forall|k: int| b - a <= k < t.len() implies is_space(t[k]) by {
            assert(t[k] == line@[a + k]);
        }
        lemma_trim_end(t, b - a);
        assert(t.subrange(0, b - a) =~= line@.subrange(a as int, b as int));
    }
    (a, b)
}

fn is_space_byte(b: u8) -> (r: bool)
    ensures
        r == is_space(b),
{
    b == 32u8 || b == 9u8 || b == 10u8 || b == 11u8 || b == 12u8 || b == 13u8
}

/// The bounds of each field of `line`, trimmed.
pub fn field_bounds(line: &[u8]) -> (r: Vec<(usize, usize)>)
    ensures
        r@.len() == line_fields(line@).len(),
        forall|k: int| 0 <= k < r@.len() ==> (#[trigger] r@[k]).0 <= r@[k].1 <= line@.len(),
        forall|k: int|
            0 <= k < r@.len() ==> line@.subrange((#[trigger] r@[k]).0 as int, r@[k].1 as int)
                == line_fields(line@)[k],
{
    let len = line.len();
    let mut r: Vec<(usize, usize)> = Vec::new();
    let ghost mut done: Seq<Seq<u8>> = Seq::empty();
    let mut pos: usize = 0;
    assert(line@.subrange(0, len as int) =~= line@);
    assert(done + split_fields(line@) =~= split_fields(line@));
    loop
        invariant
            len == line@.len(),
            pos <= len,
            split_fields(line@) == done + split_fields(line@.subrange(pos as int, len as int)),
            r@.len() == done.len(),
            forall|k: int| 0 <= k < r@.len() ==> (#[trigger] r@[k]).0 <= r@[k].1 <= line@.len(),
            forall|k: int|
                0 <= k < r@.len() ==> line@.subrange((#[trigger] r@[k]).0 as int, r@[k].1 as int)
                    == trimmed(done[k]),
        decreases len - pos,
    {
        let end = field_end(line, pos);
        let bounds = trim_bounds(line, pos, end);
        let ghost rest = line@.subrange(pos as int, len as int);
        let ghost field = line@.subrange(pos as int, end as int);
        proof {
            assert(rest.subrange(0, end - pos) =~= field);
        }
        let ghost r0 = r@;
        let ghost done0 = done;
        r.push(bounds);
        proof {
            done = done.push(field);
            assert forall|k: int| 0 <= k < r@.len() implies (#[trigger] r@[k]).0 <= r@[k].1
                <= line@.len() && line@.subrange(r@[k].0 as int, r@[k].1 as int) == trimmed(
                done[k],
            ) by {
                if k < r0.len() {
                    assert(r@[k] == r0[k]);
                    assert(done[k] == done0[k]);
                }
            }
        }
        if end == len {
            proof {
                assert(split_fields(rest) == seq![rest]);
                assert(rest =~= field);
                assert(done =~= split_fields(line@)) by {
                    assert(split_fields(line@) =~= done.drop_last() + seq![field]);
                }
                assert forall|k: int| 0 <= k < r@.len() implies line@.subrange(
                    (#[trigger] r@[k]).0 as int,
                    r@[k].1 as int,
                ) == line_fields(line@)[k] by {
                    assert(line_fields(line@)[k] == trimmed(split_fields(line@)[k]));
                }
            }
            return r;
        }
        proof {
            let next = line@.subrange(end + 1, len as int);
            assert(rest.subrange(end - pos + 1, rest.len() as int) =~= next);
            assert(split_fields(rest) == seq![field] + split_fields(next));
            assert(split_fields(line@) =~= done + split_fields(next));
        }
        pos = end + 1;
    }
}

} // verus!

verus! {

/// The columns of the input.
#[derive(Clone, Copy, Debug, PartialEq, Eq)]
pub enum Column {
    Type,
    Client,
    Tx,
    Amount,
}

/// The column that a header field names, if any.
pub open spec fn column_named(f: Seq<u8>) -> Option<Column> {
    if f == seq![116u8, 121u8, 112u8, 101u8] {
        Some(Column::Type)
    } else if f == seq![99u8, 108u8, 105u8, 101u8, 110u8, 116u8] {
        Some(Column::Client)
    } else if f == seq![116u8, 120u8] {
        Some(Column::Tx)
    } else if f == seq![97u8, 109u8, 111u8, 117u8, 110u8, 116u8] {
        Some(Column::Amount)
    } else {
        None
    }
}

/// The transaction type that a `type` field names, if any.
pub open spec fn type_named(f: Seq<u8>) -> Option<TransactionType> {
    if f == seq![100u8, 101u8, 112u8, 111u8, 115u8, 105u8, 116u8] {
        Some(TransactionType::Deposit)
    } else if f == seq![119u8, 105u8, 116u8, 104u8, 100u8, 114u8, 97u8, 119u8, 97u8, 108u8] {
        Some(TransactionType::Withdrawal)
    } else if f == seq![100u8, 105u8, 115u8, 112u8, 117u8, 116u8, 101u8] {
        Some(TransactionType::Dispute)
    } else if f == seq![114u8, 101u8, 115u8, 111u8, 108u8, 118u8, 101u8] {
        Some(TransactionType::Resolve)
    } else if f == seq![99u8, 104u8, 97u8, 114u8, 103u8, 101u8, 98u8, 97u8, 99u8, 107u8] {
        Some(TransactionType::Chargeback)
    } else {
        None
    }
}

/// Whether `line[start..end]` spells `word`.
fn spells(line: &[u8], start: usize, end: usize, word: &[u8]) -> (r: bool)
    requires
        start <= end <= line@.len(),
    ensures
        r == (line@.subrange(start as int, end as int) == word@),
{
    if end - start != word.len() {
        return false;
    }
    let mut k: usize = 0;
    while k < word.len()
        invariant
            start <= end <= line@.len(),
            end - start == word@.len(),
            k <= word@.len(),
            forall|m: int| 0 <= m < k ==> line@[start + m] == word@[m],
        decreases word@.len() - k,
    {
        if line[start + k] != word[k] {
            assert(line@.subrange(start as int, end as int)[k as int] != word@[k as int]);
            return false;
        }
        k = k + 1;
    }
    assert(line@.subrange(start as int, end as int) =~= word@);
    true
}

fn column_at(line: &[u8], start: usize, end: usize) -> (r: Option<Column>)
    requires
        start <= end <= line@.len(),
    ensures
        r == column_named(line@.subrange(start as int, end as int)),
{
    let w: Vec<u8> = vec![116u8, 121u8, 112u8, 101u8];
    assert(w@ =~= seq![116u8, 121u8, 112u8, 101u8]);
    if spells(line, start, end, w.as_slice()) {
        return Some(Column::Type);
    }
    let w: Vec<u8> = vec![99u8, 108u8, 105u8, 101u8, 110u8, 116u8];
    assert(w@ =~= seq![99u8, 108u8, 105u8, 101u8, 110u8, 116u8]);
    if spells(line, start, end, w.as_slice()) {
        return Some(Column::Client);
    }
    let w: Vec<u8> = vec![116u8, 120u8];
    assert(w@ =~= seq![116u8, 120u8]);
    if spells(line, start, end, w.as_slice()) {
        return Some(Column::Tx);
    }
    let w: Vec<u8> = vec![97u8, 109u8, 111u8, 117u8, 110u8, 116u8];
    assert(w@ =~= seq![97u8, 109u8, 111u8, 117u8, 110u8, 116u8]);
    if spells(line, start, end, w.as_slice()) {
        return Some(Column::Amount);
    }
    None
}

fn type_at(line: &[u8], start: usize, end: usize) -> (r: Option<TransactionType>)
    requires
        start <= end <= line@.len(),
    ensures
        r == type_named(line@.subrange(start as int, end as int)),
{
    let w: Vec<u8> = vec![100u8, 101u8, 112u8, 111u8, 115u8, 105u8, 116u8];
    assert(w@ =~= seq![100u8, 101u8, 112u8, 111u8, 115u8, 105u8, 116u8]);
    if spells(line, start, end, w.as_slice()) {
        return Some(TransactionType::Deposit);
    }
    let w: Vec<u8> = vec![119u8, 105u8, 116u8, 104u8, 100u8, 114u8, 97u8, 119u8, 97u8, 108u8];
    assert(w@ =~= seq![119u8, 105u8, 116u8, 104u8, 100u8, 114u8, 97u8, 119u8, 97u8, 108u8]);
    if spells(line, start, end, w.as_slice()) {
        return Some(TransactionType::Withdrawal);
    }
    let w: Vec<u8> = vec![100u8, 105u8, 115u8, 112u8, 117u8, 116u8, 101u8];
    assert(w@ =~= seq![100u8, 105u8, 115u8, 112u8, 117u8, 116u8, 101u8]);
    if spells(line, start, end, w.as_slice()) {
        return Some(TransactionType::Dispute);
    }
    let w: Vec<u8> = vec![114u8, 101u8, 115u8, 111u8, 108u8, 118u8, 101u8];
    assert(w@ =~= seq![114u8, 101u8, 115u8, 111u8, 108u8, 118u8, 101u8]);
    if spells(line, start, end, w.as_slice()) {
        return Some(TransactionType::Resolve);
    }
    let w: Vec<u8> = vec![99u8, 104u8, 97u8, 114u8, 103u8, 101u8, 98u8, 97u8, 99u8, 107u8];
    assert(w@ =~= seq![99u8, 104u8, 97u8, 114u8, 103u8, 101u8, 98u8, 97u8, 99u8, 107u8]);
    if spells(line, start, end, w.as_slice()) {
        return Some(TransactionType::Chargeback);
    }
    None
}

} // verus!

verus! {

pub open spec fn is_digit_byte(b: u8) -> bool {
    48u8 <= b <= 57u8
}

/// The number that a run of decimal digits spells.
pub open spec fn digits_number(s: Seq<u8>) -> int
    decreases s.len(),
{
    if s.len() == 0 {
        0
    } else {
        10 * digits_number(s.drop_last()) + (s.last() - 48u8)
    }
}

/// `f` without a leading `+`.
pub open spec fn unsigned_digits(f: Seq<u8>) -> Seq<u8> {
    if f.len() > 0 && f[0] == 43u8 {
        f.subrange(1, f.len() as int)
    } else {
        f
    }
}

pub open spec fn all_digits(s: Seq<u8>) -> bool {
    forall|i: int| 0 <= i < s.len() ==> is_digit_byte(#[trigger] s[i])
}

/// A whole number as it is written for an unsigned field: an optional `+`,
/// then one or more digits.
pub open spec fn unsigned_number(f: Seq<u8>) -> Option<int> {
    let d = unsigned_digits(f);
    if d.len() > 0 && all_digits(d) {
        Some(digits_number(d))
    } else {
        None
    }
}

/// The number that `f` writes, if it is one and at most `max`.
pub open spec fn bounded_number(f: Seq<u8>, max: int) -> Option<int> {
    match unsigned_number(f) {
        Some(v) => if v <= max {
            Some(v)
        } else {
            None
        },
        None => None,
    }
}

proof fn lemma_digits_number_nonneg(s: Seq<u8>)
    requires
        forall|i: int| 0 <= i < s.len() ==> is_digit_byte(#[trigger] s[i]),
    ensures
        digits_number(s) >= 0,
    decreases s.len(),
{
    if s.len() > 0 {
        let t = s.drop_last();
        assert forall|i: int| 0 <= i < t.len() implies is_digit_byte(#[trigger] t[i]) by {
            assert(t[i] == s[i]);
        }
        lemma_digits_number_nonneg(t);
        assert(is_digit_byte(s[s.len() - 1]));
    }
}

/// Reads the number in `line[start..end]`, if it is one and at most `max`.
fn parse_unsigned(line: &[u8], start: usize, end: usize, max: u32) -> (r: Option<u32>)
    requires
        start <= end <= line@.len(),
    ensures
        match bounded_number(line@.subrange(start as int, end as int), max as int) {
            Some(v) => 0 <= v <= max && r == Some(v as u32),
            None => r is None,
        },
{
    let ghost f = line@.subrange(start as int, end as int);
    let mut i = start;
    if i < end && line[i] == 43u8 {
        i = i + 1;
    }
    let first = i;
    let ghost d = line@.subrange(first as int, end as int);
    proof {
        if f.len() > 0 {
            assert(f[0] == line@[start as int]);
        }
        if f.len() > 0 && f[0] == 43u8 {
            assert(f.subrange(1, f.len() as int) =~= d);
        } else {
            assert(f =~= d);
        }
    }
    if first == end {
        return None;
    }
    let mut acc: u64 = 0;
    let mut over = false;
    while i < end
        invariant
            first <= i <= end <= line@.len(),
            d == line@.subrange(first as int, end as int),
            f == line@.subrange(start as int, end as int),
            f.len() > 0 && f[0] == 43u8 ==> f.subrange(1, f.len() as int) == d,
            !(f.len() > 0 && f[0] == 43u8) ==> f == d,
            forall|k: int| first <= k < i ==> is_digit_byte(#[trigger] line@[k]),
            !over ==> acc == digits_number(line@.subrange(first as int, i as int)) && acc <= max,
            over ==> digits_number(line@.subrange(first as int, i as int)) > max,
        decreases end - i,
    {
        let b = line[i];
        if b < 48u8 || b > 57u8 {
            proof {
                assert(d[i - first] == line@[i as int]);
                assert(!is_digit_byte(d[i - first]));
                assert(d.len() > 0);
                assert(!(forall|q: int| 0 <= q < d.len() ==> is_digit_byte(#[trigger] d[q])));
                if f.len() > 0 && f[0] == 43u8 {
                    assert(f.subrange(1, f.len() as int) == d);
                } else {
                    assert(f == d);
                }
            }
            return None;
        }
        let ghost prev = line@.subrange(first as int, i as int);
        let ghost next = line@.subrange(first as int, i + 1);
        proof {
            assert(next.drop_last() =~= prev);
            assert forall|k: int| 0 <= k < prev.len() implies is_digit_byte(#[trigger] prev[k]) by {
                assert(prev[k] == line@[first + k]);
            }
            lemma_digits_number_nonneg(prev);
        }
        if !over {
            let v = acc * 10 + (b - 48u8) as u64;
            if v > max as u64 {
                over = true;
            } else {
                acc = v;
            }
        }
        i = i + 1;
    }
    proof {
        assert(line@.subrange(first as int, end as int) =~= d);
        assert forall|k: int| 0 <= k < d.len() implies is_digit_byte(#[trigger] d[k]) by {
            assert(d[k] == line@[first + k]);
        }
        lemma_digits_number_nonneg(d);
    }
    if over {
        None
    } else {
        Some(acc as u32)
    }
}

/// Where each column stands in the header.
#[derive(Clone, Copy, Debug, PartialEq, Eq)]
pub struct Header {
    pub ttype: Option<usize>,
    pub client: Option<usize>,
    pub tx: Option<usize>,
    pub amount: Option<usize>,
}

/// The position of the field that names column `c`, if one does.
pub open spec fn column_position(fs: Seq<Seq<u8>>, c: Column) -> Option<usize> {
    if exists|k: int| 0 <= k < fs.len() && column_named(#[trigger] fs[k]) == Some(c) {
        Some((choose|k: int| 0 <= k < fs.len() && column_named(#[trigger] fs[k]) == Some(c)) as usize)
    } else {
        None
    }
}

/// What a header line gives: each field must name a column, and no column
/// twice.
pub open spec fn header_spec(line: Seq<u8>, lineno: usize) -> Result<Header, AppError> {
    let fs = line_fields(line);
    if exists|k: int| 0 <= k < fs.len() && column_named(#[trigger] fs[k]) is None {
        Err(AppError::UnknownHeader { line: lineno })
    } else if exists|k: int, j: int|
        0 <= k < j < fs.len() && column_named(#[trigger] fs[k]) == column_named(#[trigger] fs[j]) {
        Err(AppError::DuplicateHeader { line: lineno })
    } else {
        Ok(
            Header {
                ttype: column_position(fs, Column::Type),
                client: column_position(fs, Column::Client),
                tx: column_position(fs, Column::Tx),
                amount: column_position(fs, Column::Amount),
            },
        )
    }
}

/// The position that column `c` has among the first `n` fields, so far.
pub open spec fn placed(fs: Seq<Seq<u8>>, n: int, c: Column, p: Option<usize>) -> bool {
    match p {
        Some(k) => k < n && column_named(fs[k as int]) == Some(c),
        None => forall|k: int| 0 <= k < n ==> column_named(#[trigger] fs[k]) != Some(c),
    }
}

proof fn lemma_placed_position(fs: Seq<Seq<u8>>, c: Column, p: Option<usize>)
    requires
        placed(fs, fs.len() as int, c, p),
        forall|k: int, j: int|
            0 <= k < j < fs.len() ==> column_named(#[trigger] fs[k]) != column_named(#[trigger] fs[j]),
    ensures
        p == column_position(fs, c),
{
    match p {
        Some(k) => {
            assert(column_named(fs[k as int]) == Some(c));
            let q = choose|q: int| 0 <= q < fs.len() && column_named(#[trigger] fs[q]) == Some(c);
            if q < k {
                assert(column_named(fs[q]) != column_named(fs[k as int]));
            } else if q > k {
                assert(column_named(fs[k as int]) != column_named(fs[q]));
            }
        },
        None => {},
    }
}

/// Reads a header line.
pub fn parse_header(line: &[u8], lineno: usize) -> (r: Result<Header, AppError>)
    ensures
        r == header_spec(line@, lineno),
{
    let ghost fs = line_fields(line@);
    let bounds = field_bounds(line);
    let mut cols: Vec<Column> = Vec::new();
    let mut k: usize = 0;
    while k < bounds.len()
        invariant
            fs == line_fields(line@),
            bounds@.len() == fs.len(),
            forall|q: int| 0 <= q < bounds@.len() ==> (#[trigger] bounds@[q]).0 <= bounds@[q].1 <= line@.len(),
            forall|q: int|
                0 <= q < bounds@.len() ==> line@.subrange((#[trigger] bounds@[q]).0 as int, bounds@[q].1 as int)
                    == fs[q],
            k <= bounds@.len(),
            cols@.len() == k,
            forall|q: int| 0 <= q < k ==> column_named(fs[q]) == Some(#[trigger] cols@[q]),
        decreases bounds@.len() - k,
    {
        let (a, b) = bounds[k];
        match column_at(line, a, b) {
            Some(c) => cols.push(c),
            None => {
                assert(column_named(fs[k as int]) is None);
                return Err(AppError::UnknownHeader { line: lineno });
            },
        }
        k = k + 1;
    }
    assert(!exists|q: int| 0 <= q < fs.len() && column_named(#[trigger] fs[q]) is None) by {
        assert forall|q: int| 0 <= q < fs.len() implies column_named(#[trigger] fs[q]) is Some by {
            assert(column_named(fs[q]) == Some(cols@[q]));
        }
    }
    let mut h = Header { ttype: None, client: None, tx: None, amount: None };
    let mut k: usize = 0;
    while k < cols.len()
        invariant
            fs == line_fields(line@),
            cols@.len() == fs.len(),
            forall|q: int| 0 <= q < cols@.len() ==> column_named(fs[q]) == Some(#[trigger] cols@[q]),
            k <= cols@.len(),
            placed(fs, k as int, Column::Type, h.ttype),
            placed(fs, k as int, Column::Client, h.client),
            placed(fs, k as int, Column::Tx, h.tx),
            placed(fs, k as int, Column::Amount, h.amount),
            forall|q: int, j: int|
                0 <= q < j < k ==> column_named(#[trigger] fs[q]) != column_named(#[trigger] fs[j]),
        decreases cols@.len() - k,
    {
        let c = cols[k];
        let slot = match c {
            Column::Type => h.ttype,
            Column::Client => h.client,
            Column::Tx => h.tx,
            Column::Amount => h.amount,
        };
        if let Some(j) = slot {
            proof {
                assert(column_named(fs[j as int]) == column_named(fs[k as int]));
                assert forall|q: int| 0 <= q < fs.len() implies column_named(#[trigger] fs[q]) is Some by {
                    assert(column_named(fs[q]) == Some(cols@[q]));
                }
            }
            return Err(AppError::DuplicateHeader { line: lineno });
        }
        match c {
            Column::Type => h.ttype = Some(k),
            Column::Client => h.client = Some(k),
            Column::Tx => h.tx = Some(k),
            Column::Amount => h.amount = Some(k),
        }
        proof {
            assert forall|q: int, j: int|
                0 <= q < j < k + 1 implies column_named(#[trigger] fs[q]) != column_named(
                #[trigger] fs[j],
            ) by {
                if j == k {
                    assert(column_named(fs[q]) == Some(cols@[q]));
                }
            }
        }
        k = k + 1;
    }
    proof {
        lemma_placed_position(fs, Column::Type, h.ttype);
        lemma_placed_position(fs, Column::Client, h.client);
        lemma_placed_position(fs, Column::Tx, h.tx);
        lemma_placed_position(fs, Column::Amount, h.amount);
    }
    Ok(h)
}

} // verus!

verus! {

/// The field at position `p`, if the column is in the header and the line
/// reaches it.
pub open spec fn field_at(fs: Seq<Seq<u8>>, p: Option<usize>) -> Option<Seq<u8>> {
    match p {
        Some(k) => if k < fs.len() {
            Some(fs[k as int])
        } else {
            None
        },
        None => None,
    }
}

/// The type, client and transaction id that a record line gives, or the
/// first of them that is missing or wrong.
pub open spec fn record_head(h: Header, line: Seq<u8>, lineno: usize) -> Result<
    (TransactionType, u16, u32),
    AppError,
> {
    let fs = line_fields(line);
    match field_at(fs, h.ttype) {
        None => Err(AppError::MissingField { line: lineno }),
        Some(tf) => match type_named(tf) {
            None => Err(AppError::UnknownTransactionType { line: lineno }),
            Some(ty) => match field_at(fs, h.client) {
                None => Err(AppError::MissingField { line: lineno }),
                Some(cf) => match bounded_number(cf, 0xffff) {
                    None => Err(AppError::InvalidNumber { line: lineno }),
                    Some(c) => match field_at(fs, h.tx) {
                        None => Err(AppError::MissingField { line: lineno }),
                        Some(xf) => match bounded_number(xf, 0xffff_ffff) {
                            None => Err(AppError::InvalidNumber { line: lineno }),
                            Some(x) => Ok((ty, c as u16, x as u32)),
                        },
                    },
                },
            },
        },
    }
}

/// The amount field of a record whose type carries an amount, if it is there
/// and not empty.
pub open spec fn amount_field(h: Header, line: Seq<u8>, ty: TransactionType) -> Option<Seq<u8>> {
    if ty == TransactionType::Deposit || ty == TransactionType::Withdrawal {
        match field_at(line_fields(line), h.amount) {
            Some(f) => if f.len() > 0 {
                Some(f)
            } else {
                None
            },
            None => None,
        }
    } else {
        None
    }
}

/// What reading a record line gives: the transaction, or why the line is not
/// one. The amount is read as `Currency::from_str` reads it.
pub open spec fn record_read(h: Header, line: Seq<u8>, lineno: usize, r: Result<Transaction, AppError>) -> bool {
    match record_head(h, line, lineno) {
        Err(e) => r == Err::<Transaction, AppError>(e),
        Ok((ty, c, x)) => {
            let base = Transaction {
                ttype: ty,
                cid: ClientId(c),
                tid: TransactionId(x),
                amount: None,
            };
            match amount_field(h, line, ty) {
                None => r == Ok::<Transaction, AppError>(base),
                Some(f) => if !valid_utf8(f) {
                    r == Err::<Transaction, AppError>(AppError::InvalidUtf8 { line: lineno })
                } else {
                    let text = decode_utf8(f);
                    &&& (r matches Ok(t) ==> t == (Transaction { amount: t.amount, ..base }) && (
                    t.amount matches Some(v) && v.wf()))
                    &&& (r matches Err(e) ==> (e matches AppError::FailedToParseDecimal { decimal }
                        && decimal@ == text))
                    &&& (plain_decimal(text) ==> r == Ok::<Transaction, AppError>(
                        Transaction { amount: Some(plain_decimal_value(text)), ..base },
                    ))
                    &&& (rejected_literal(text) ==> r is Err)
                },
            }
        },
    }
}

/// Relies on `std::str::from_utf8`: it accepts exactly the byte strings that
/// are valid UTF-8, and gives the text that they encode.
#[verifier::external_body]
fn utf8_text(bytes: &[u8]) -> (r: Option<&str>)
    ensures
        r is Some <==> valid_utf8(bytes@),
        r matches Some(s) ==> s@ == decode_utf8(bytes@),
{
    std::str::from_utf8(bytes).ok()
}

/// The bounds of the field at position `p`, as `field_at` picks it.
fn field_bounds_at(line: &[u8], bounds: &Vec<(usize, usize)>, p: Option<usize>) -> (r: Option<
    (usize, usize),
>)
    requires
        bounds@.len() == line_fields(line@).len(),
        forall|k: int| 0 <= k < bounds@.len() ==> (#[trigger] bounds@[k]).0 <= bounds@[k].1 <= line@.len(),
        forall|k: int|
            0 <= k < bounds@.len() ==> line@.subrange((#[trigger] bounds@[k]).0 as int, bounds@[k].1 as int)
                == line_fields(line@)[k],
    ensures
        match field_at(line_fields(line@), p) {
            Some(f) => r matches Some(b) && b.0 <= b.1 <= line@.len() && line@.subrange(
                b.0 as int,
                b.1 as int,
            ) == f,
            None => r is None,
        },
{
    match p {
        Some(k) => if k < bounds.len() {
            let b = bounds[k];
            assert(bounds@[k as int] == b);
            Some(b)
        } else {
            None
        },
        None => None,
    }
}

impl Transaction {
    /// Reads one record line, given where the header put each column.
    pub fn from_csv_line(h: &Header, line: &[u8], lineno: usize) -> (r: Result<Transaction, AppError>)
        ensures
            record_read(*h, line@, lineno, r),
    {
        let bounds = field_bounds(line);
        let ttype = match field_bounds_at(line, &bounds, h.ttype) {
            None => return Err(AppError::MissingField { line: lineno }),
            Some((a, b)) => match type_at(line, a, b) {
                None => return Err(AppError::UnknownTransactionType { line: lineno }),
                Some(ty) => ty,
            },
        };
        let cid = match field_bounds_at(line, &bounds, h.client) {
            None => return Err(AppError::MissingField { line: lineno }),
            Some((a, b)) => match parse_unsigned(line, a, b, 0xffff) {
                None => return Err(AppError::InvalidNumber { line: lineno }),
                Some(c) => c as u16,
            },
        };
        let tid = match field_bounds_at(line, &bounds, h.tx) {
            None => return Err(AppError::MissingField { line: lineno }),
            Some((a, b)) => match parse_unsigned(line, a, b, 0xffff_ffff) {
                None => return Err(AppError::InvalidNumber { line: lineno }),
                Some(x) => x,
            },
        };
        let base = Transaction {
            ttype,
            cid: ClientId(cid),
            tid: TransactionId(tid),
            amount: None,
        };
        let carries = match ttype {
            TransactionType::Deposit | TransactionType::Withdrawal => true,
            _ => false,
        };
        if !carries {
            return Ok(base);
        }
        match field_bounds_at(line, &bounds, h.amount) {
            None => Ok(base),
            Some((a, b)) => {
                if a == b {
                    return Ok(base);
                }
                let text = match utf8_text(&line[a..b]) {
                    None => return Err(AppError::InvalidUtf8 { line: lineno }),
                    Some(s) => s,
                };
                match Currency::from_str(text) {
                    Ok(amount) => Ok(Transaction { amount: Some(amount), ..base }),
                    Err(e) => Err(e),
                }
            },
        }
    }
}

/// Whether a line holds no record: it is blank, or a comment starting
/// with `#`.
pub open spec fn skipped_line(line: Seq<u8>) -> bool {
    trimmed(line).len() == 0 || (line.len() > 0 && line[0] == 35u8)
}

/// The state of reading a file: the header once it has been read, and the
/// number of lines seen.
pub struct CsvReader {
    pub header: Option<Header>,
    pub line: usize,
}

impl CsvReader {
    pub fn new() -> (r: CsvReader)
        ensures
            r.header is None,
            r.line == 0,
    {
        CsvReader { header: None, line: 0 }
    }

    /// Reads the next line of the file. A blank line or a comment gives
    /// nothing; so does the header, the first other line, once read.
    /// Every other line gives a record, or the error that ends the run.
    pub fn parse_line(&mut self, line: &[u8]) -> (r: Option<Result<Transaction, AppError>>)
        ensures
            final(self).line == if old(self).line < usize::MAX {
                (old(self).line + 1) as usize
            } else {
                old(self).line
            },
            skipped_line(line@) ==> r is None && final(self).header == old(self).header,
            !skipped_line(line@) && old(self).header is None ==> match header_spec(
                line@,
                final(self).line,
            ) {
                Ok(h) => r is None && final(self).header == Some(h),
                Err(e) => r == Some(Err::<Transaction, AppError>(e)) && final(self).header is None,
            },
            !skipped_line(line@) && old(self).header is Some ==> final(self).header == old(
                self,
            ).header,
            !skipped_line(line@) && old(self).header is Some ==> (r matches Some(x) && record_read(
                old(self).header->Some_0,
                line@,
                final(self).line,
                x,
            )),
    {
        if self.line < usize::MAX {
            self.line = self.line + 1;
        }
        let (a, b) = trim_bounds(line, 0, line.len());
        proof {
            assert(line@.subrange(0, line@.len() as int) =~= line@);
        }
        if a == b || line[0] == 35u8 {
            return None;
        }
        match self.header {
            None => match parse_header(line, self.line) {
                Ok(h) => {
                    self.header = Some(h);
                    None
                },
                Err(e) => Some(Err(e)),
            },
            Some(h) => Some(Transaction::from_csv_line(&h, line, self.line)),
        }
    }
}

} // verus!
