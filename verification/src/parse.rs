//! Parsing of the vertical-orientation classification rows: lines of the
//! shape `<hex>[..<hex>] ; <label> [# comment]`, blank and comment-only lines
//! skipped. The grammar is stated by spec functions over byte sequences and
//! the executable parser is proved to compute exactly that grammar's value.

use vstd::prelude::*;
use crate::store::Label;

verus! {

/// The four orientation classes a row can assign.
#[derive(Clone, Copy, PartialEq, Eq, Structural, Debug)]
pub enum Orient {
    U,
    R,
    Tu,
    Tr,
}

impl Label for Orient {
    fn eq_label(&self, other: &Self) -> (r: bool) {
        *self == *other
    }
}

/// A row that does not fit the grammar, reported by its zero-based line index.
#[derive(Clone, Copy, PartialEq, Eq, Structural, Debug)]
pub struct ParseError {
    pub line_index: usize,
}

/// Blank bytes stripped from field edges: space, tab, carriage return,
/// vertical tab, form feed.
pub open spec fn is_space(b: u8) -> bool {
    b == 32 || b == 9 || b == 13 || b == 11 || b == 12
}

/// An ASCII hexadecimal digit, either case.
pub open spec fn is_hex_digit(b: u8) -> bool {
    (48 <= b && b <= 57) || (65 <= b && b <= 70) || (97 <= b && b <= 102)
}

/// The value of one hexadecimal digit.
pub open spec fn hex_digit_val(b: u8) -> int {
    if 48 <= b && b <= 57 {
        b - 48
    } else if 65 <= b && b <= 70 {
        b - 55
    } else if 97 <= b && b <= 102 {
        b - 87
    } else {
        0
    }
}

/// The value of a big-endian string of hexadecimal digits.
pub open spec fn hex_val(s: Seq<u8>) -> int
    decreases s.len(),
{
    if s.len() == 0 {
        0
    } else {
        hex_val(s.drop_last()) * 16 + hex_digit_val(s.last())
    }
}

/// Every byte is a hexadecimal digit.
pub open spec fn all_hex(s: Seq<u8>) -> bool {
    forall|i: int| 0 <= i < s.len() ==> is_hex_digit(#[trigger] s[i])
}

/// A nonempty all-hexadecimal string whose value fits in `u32`.
pub open spec fn valid_hex(s: Seq<u8>) -> bool {
    s.len() > 0 && all_hex(s) && hex_val(s) <= u32::MAX
}

/// The field with blank bytes stripped from both edges.
pub open spec fn trim_spec(s: Seq<u8>) -> Seq<u8>
    decreases s.len(),
{
    if s.len() == 0 {
        s
    } else if is_space(s[0]) {
        trim_spec(s.drop_first())
    } else if is_space(s.last()) {
        trim_spec(s.drop_last())
    } else {
        s
    }
}

/// The least index at or after `pos` holding byte `b`, or `s.len()`.
pub open spec fn find_from(s: Seq<u8>, pos: int, b: u8) -> int
    decreases s.len() - pos,
{
    if pos < 0 || pos >= s.len() {
        s.len() as int
    } else if s[pos] == b {
        pos
    } else {
        find_from(s, pos + 1, b)
    }
}

/// `find_from` stays within bounds, lands on `b`, and skips no `b`.
pub proof fn lemma_find_from(s: Seq<u8>, pos: int, b: u8)
    requires
        0 <= pos <= s.len(),
    ensures
        pos <= find_from(s, pos, b) <= s.len(),
        find_from(s, pos, b) < s.len() ==> s[find_from(s, pos, b)] == b,
        forall|j: int| pos <= j < find_from(s, pos, b) ==> s[j] != b,
    decreases s.len() - pos,
{
    if pos < s.len() && s[pos] != b {
        lemma_find_from(s, pos + 1, b);
    }
}

/// The least index of a `".."` pair at or after `pos`, or `s.len()`.
pub open spec fn find_dotdot_from(s: Seq<u8>, pos: int) -> int
    decreases s.len() - pos,
{
    if pos < 0 || pos + 1 >= s.len() {
        s.len() as int
    } else if s[pos] == 46 && s[pos + 1] == 46 {
        pos
    } else {
        find_dotdot_from(s, pos + 1)
    }
}

/// `find_dotdot_from` stays within bounds and lands on a `".."` pair.
pub proof fn lemma_find_dotdot_from(s: Seq<u8>, pos: int)
    requires
        0 <= pos <= s.len(),
    ensures
        pos <= find_dotdot_from(s, pos) <= s.len(),
        find_dotdot_from(s, pos) < s.len() ==> find_dotdot_from(s, pos) + 1 < s.len()
            && s[find_dotdot_from(s, pos)] == 46 && s[find_dotdot_from(s, pos) + 1] == 46,
    decreases s.len() - pos,
{
    if pos + 1 < s.len() && !(s[pos] == 46 && s[pos + 1] == 46) {
        lemma_find_dotdot_from(s, pos + 1);
    }
}

/// Decide whether a byte is blank.
fn is_space_b(b: u8) -> (r: bool)
    ensures
        r == is_space(b),
{
    b == 32 || b == 9 || b == 13 || b == 11 || b == 12
}

/// The digit value of a hexadecimal byte, or none.
fn hex_digit(b: u8) -> (r: Option<u8>)
    ensures
        r is Some <==> is_hex_digit(b),
        r is Some ==> r.unwrap() as int == hex_digit_val(b),
{
    if 48 <= b && b <= 57 {
        Some(b - 48)
    } else if 65 <= b && b <= 70 {
        Some(b - 55)
    } else if 97 <= b && b <= 102 {
        Some(b - 87)
    } else {
        None
    }
}

/// Strip blank bytes from both edges of a field.
fn trim(s: &[u8]) -> (r: &[u8])
    ensures
        r@ == trim_spec(s@),
{
    let mut lo: usize = 0;
    let mut hi: usize = s.len();
    proof {
        assert(s@.subrange(0, s@.len() as int) =~= s@);
    }
    while lo < hi && is_space_b(*vstd::slice::slice_index_get(s, lo))
        invariant
            0 <= lo <= hi <= s@.len(),
            trim_spec(s@) == trim_spec(s@.subrange(lo as int, s@.len() as int)),
            hi == s@.len(),
        decreases hi - lo,
    {
        proof {
            let sub = s@.subrange(lo as int, s@.len() as int);
            assert(sub.drop_first() =~= s@.subrange(lo as int + 1, s@.len() as int));
        }
        lo += 1;
    }
    while hi > lo && is_space_b(*vstd::slice::slice_index_get(s, hi - 1))
        invariant
            0 <= lo <= hi <= s@.len(),
            trim_spec(s@) == trim_spec(s@.subrange(lo as int, hi as int)),
            lo < s@.len() ==> !is_space(s@[lo as int]),
            lo == hi || !is_space(s@[lo as int]),
        decreases hi,
    {
        proof {
            let sub = s@.subrange(lo as int, hi as int);
            assert(sub.drop_last() =~= s@.subrange(lo as int, hi as int - 1));
        }
        hi -= 1;
    }
    let r = vstd::slice::slice_subrange(s, lo, hi);
    proof {
        let sub = s@.subrange(lo as int, hi as int);
        assert(trim_spec(sub) == sub);
    }
    r
}

/// The least index at or after `from` holding byte `b`, or the length.
fn find_byte(s: &[u8], from: usize, b: u8) -> (r: usize)
    requires
        from <= s@.len(),
    ensures
        r as int == find_from(s@, from as int, b),
        from <= r <= s@.len(),
{
    let n = s.len();
    let mut i = from;
    while i < n && *vstd::slice::slice_index_get(s, i) != b
        invariant
            from <= i <= n,
            n == s@.len(),
            find_from(s@, from as int, b) == find_from(s@, i as int, b),
        decreases n - i,
    {
        i += 1;
    }
    proof {
        lemma_find_from(s@, from as int, b);
    }
    i
}

/// The least index of a `".."` pair, or the length.
fn find_dotdot(s: &[u8]) -> (r: usize)
    ensures
        r as int == find_dotdot_from(s@, 0),
        r <= s@.len(),
        r < s@.len() ==> r + 1 < s@.len(),
{
    let n = s.len();
    if n < 2 {
        return n;
    }
    let mut i: usize = 0;
    while i + 1 < n && !(*vstd::slice::slice_index_get(s, i) == 46
        && *vstd::slice::slice_index_get(s, i + 1) == 46)
        invariant
            0 <= i < n,
            2 <= n == s@.len(),
            find_dotdot_from(s@, 0) == find_dotdot_from(s@, i as int),
        decreases n - i,
    {
        i += 1;
    }
    proof {
        lemma_find_dotdot_from(s@, 0);
    }
    if i + 1 < n {
        i
    } else {
        n
    }
}

/// Parse a string of hexadecimal digits into its value, refusing empty or
/// overlong input exactly when the grammar does.
fn parse_hex(s: &[u8]) -> (r: Option<u32>)
    ensures
        r is Some <==> valid_hex(s@),
        r is Some ==> r.unwrap() as int == hex_val(s@),
{
    let n = s.len();
    if n == 0 {
        return None;
    }
    let mut v: u32 = 0;
    let mut i: usize = 0;
    while i < n
        invariant
            0 <= i <= n,
            n == s@.len(),
            all_hex(s@.take(i as int)),
            v as int == hex_val(s@.take(i as int)),
        decreases n - i,
    {
        let d = match hex_digit(*vstd::slice::slice_index_get(s, i)) {
            Some(d) => d,
            None => {
                proof {
                    assert(!is_hex_digit(s@[i as int]));
                }
                return None;
            },
        };
        if v >= 0x1000_0000 {
            proof {
                if all_hex(s@) {
                    lemma_hex_val_take_le(s@, i as int + 1);
                    assert(s@.take(i as int + 1).drop_last() =~= s@.take(i as int));
                    assert(s@.take(i as int + 1).last() == s@[i as int]);
                    assert(hex_val(s@.take(i as int + 1))
                        == hex_val(s@.take(i as int)) * 16 + hex_digit_val(s@[i as int]));
                    assert(hex_val(s@) > u32::MAX);
                }
            }
            return None;
        }
        proof {
            assert(s@.take(i as int + 1).drop_last() =~= s@.take(i as int));
            assert(s@.take(i as int + 1).last() == s@[i as int]);
            assert forall|j: int| 0 <= j < i as int + 1 implies
                is_hex_digit(#[trigger] s@.take(i as int + 1)[j]) by {
                if j < i as int {
                    assert(is_hex_digit(s@.take(i as int)[j]));
                }
            }
        }
        v = v * 16 + (d as u32);
        i += 1;
    }
    proof {
        assert(s@.take(n as int) =~= s@);
    }
    Some(v)
}

/// A hexadecimal value is nonnegative.
proof fn lemma_hex_val_nonneg(s: Seq<u8>)
    ensures
        hex_val(s) >= 0,
    decreases s.len(),
{
    if s.len() > 0 {
        lemma_hex_val_nonneg(s.drop_last());
    }
}

/// A prefix of a hexadecimal string is worth no more than the whole.
proof fn lemma_hex_val_take_le(s: Seq<u8>, k: int)
    requires
        0 <= k <= s.len(),
    ensures
        hex_val(s.take(k)) <= hex_val(s),
    decreases s.len(),
{
    if k == s.len() {
        assert(s.take(k) =~= s);
    } else if s.len() > 0 {
        assert(s.drop_last().take(k) =~= s.take(k));
        lemma_hex_val_take_le(s.drop_last(), k);
        lemma_hex_val_nonneg(s.drop_last());
        assert(hex_val(s) == hex_val(s.drop_last()) * 16 + hex_digit_val(s.last()));
        assert(hex_val(s.drop_last()) * 16 >= hex_val(s.drop_last()));
    }
}

/// The label named by a field: exactly `U`, `R`, `Tu` or `Tr`.
pub open spec fn label_of(s: Seq<u8>) -> Option<Orient> {
    if s == seq![85u8] {
        Some(Orient::U)
    } else if s == seq![82u8] {
        Some(Orient::R)
    } else if s == seq![84u8, 117u8] {
        Some(Orient::Tu)
    } else if s == seq![84u8, 114u8] {
        Some(Orient::Tr)
    } else {
        None
    }
}

/// The range named by a field: one hexadecimal scalar, or two joined by
/// `..`; a single scalar stands for the one-point range.
pub open spec fn range_of(s: Seq<u8>) -> Option<(u32, u32)> {
    let d = find_dotdot_from(s, 0);
    if d == s.len() {
        let h = trim_spec(s);
        if valid_hex(h) {
            Some((hex_val(h) as u32, hex_val(h) as u32))
        } else {
            None
        }
    } else {
        let a = trim_spec(s.take(d));
        let rest = s.skip(d + 2);
        let b = trim_spec(rest);
        if find_dotdot_from(rest, 0) != rest.len() {
            None
        } else if valid_hex(a) && valid_hex(b) {
            Some((hex_val(a) as u32, hex_val(b) as u32))
        } else {
            None
        }
    }
}

/// The reading of one line: the part before any `#` is trimmed; an empty
/// result is skipped; otherwise the first two `;`-separated fields must name
/// a range and a label.
pub open spec fn parse_line_spec(line: Seq<u8>) -> Result<Option<((u32, u32), Orient)>, ()> {
    let content = trim_spec(line.take(find_from(line, 0, 35)));
    if content.len() == 0 {
        Ok(None)
    } else {
        let semi = find_from(content, 0, 59);
        if semi == content.len() {
            Err(())
        } else {
            let f0 = content.take(semi);
            let rest = content.skip(semi + 1);
            let f1 = trim_spec(rest.take(find_from(rest, 0, 59)));
            match (range_of(f0), label_of(f1)) {
                (Some(g), Some(l)) => Ok(Some((g, l))),
                _ => Err(()),
            }
        }
    }
}

/// Decide which label a field names.
fn label_exec(s: &[u8]) -> (r: Option<Orient>)
    ensures
        r == label_of(s@),
{
    if s.len() == 1 && *vstd::slice::slice_index_get(s, 0) == 85 {
        proof {
            assert(s@ =~= seq![85u8]);
        }
        Some(Orient::U)
    } else if s.len() == 1 && *vstd::slice::slice_index_get(s, 0) == 82 {
        proof {
            assert(s@ =~= seq![82u8]);
        }
        Some(Orient::R)
    } else if s.len() == 2 && *vstd::slice::slice_index_get(s, 0) == 84
        && *vstd::slice::slice_index_get(s, 1) == 117 {
        proof {
            assert(s@ =~= seq![84u8, 117u8]);
        }
        Some(Orient::Tu)
    } else if s.len() == 2 && *vstd::slice::slice_index_get(s, 0) == 84
        && *vstd::slice::slice_index_get(s, 1) == 114 {
        proof {
            assert(s@ =~= seq![84u8, 114u8]);
        }
        Some(Orient::Tr)
    } else {
        proof {
            assert(s@ != seq![85u8]);
            assert(s@ != seq![82u8]);
            assert(s@ != seq![84u8, 117u8]);
            assert(s@ != seq![84u8, 114u8]);
        }
        None
    }
}

/// Read the range field.
fn range_exec(s: &[u8]) -> (r: Option<(u32, u32)>)
    ensures
        r == range_of(s@),
{
    let d = find_dotdot(s);
    if d == s.len() {
        match parse_hex(trim(s)) {
            Some(v) => Some((v, v)),
            None => None,
        }
    } else {
        let a = trim(vstd::slice::slice_subrange(s, 0, d));
        let rest = vstd::slice::slice_subrange(s, d + 2, s.len());
        proof {
            assert(s@.subrange(0, d as int) =~= s@.take(d as int));
            assert(s@.subrange(d as int + 2, s@.len() as int) =~= s@.skip(d as int + 2));
        }
        if find_dotdot(rest) != rest.len() {
            None
        } else {
            let b = trim(rest);
            match (parse_hex(a), parse_hex(b)) {
                (Some(x), Some(y)) => Some((x, y)),
                _ => None,
            }
        }
    }
}

/// Read one line of the classification text.
fn parse_line(line: &[u8]) -> (r: Result<Option<((u32, u32), Orient)>, ()>)
    ensures
        r == parse_line_spec(line@),
{
    let hash_end = find_byte(line, 0, 35);
    let content = trim(vstd::slice::slice_subrange(line, 0, hash_end));
    proof {
        assert(line@.subrange(0, hash_end as int) =~= line@.take(hash_end as int));
    }
    if content.len() == 0 {
        return Ok(None);
    }
    let semi = find_byte(content, 0, 59);
    if semi == content.len() {
        return Err(());
    }
    let f0 = vstd::slice::slice_subrange(content, 0, semi);
    let rest = vstd::slice::slice_subrange(content, semi + 1, content.len());
    proof {
        assert(content@.subrange(0, semi as int) =~= content@.take(semi as int));
        assert(content@.subrange(semi as int + 1, content@.len() as int)
            =~= content@.skip(semi as int + 1));
    }
    let semi2 = find_byte(rest, 0, 59);
    let f1 = trim(vstd::slice::slice_subrange(rest, 0, semi2));
    proof {
        assert(rest@.subrange(0, semi2 as int) =~= rest@.take(semi2 as int));
    }
    match (range_exec(f0), label_exec(f1)) {
        (Some(g), Some(l)) => Ok(Some((g, l))),
        _ => Err(()),
    }
}

/// The lines of `s` from `pos` on: pieces between newline bytes, with no
/// empty final piece after a trailing newline.
pub open spec fn split_lines_from(s: Seq<u8>, pos: int) -> Seq<Seq<u8>>
    decreases s.len() - pos,
{
    if pos < 0 || pos >= s.len() {
        Seq::empty()
    } else {
        let k = find_from(s, pos, 10);
        if k < pos || k >= s.len() {
            seq![s.subrange(pos, s.len() as int)]
        } else {
            seq![s.subrange(pos, k)] + split_lines_from(s, k + 1)
        }
    }
}

/// The lines of the classification text.
pub open spec fn split_lines(s: Seq<u8>) -> Seq<Seq<u8>> {
    split_lines_from(s, 0)
}

/// The reading of a sequence of lines: the assignments of the well-formed
/// rows in order, or the index of the first malformed line.
pub open spec fn parse_lines(lines: Seq<Seq<u8>>) -> Result<Seq<((u32, u32), Orient)>, int>
    decreases lines.len(),
{
    if lines.len() == 0 {
        Ok(Seq::empty())
    } else {
        match parse_lines(lines.drop_last()) {
            Err(i) => Err(i),
            Ok(pre) => match parse_line_spec(lines.last()) {
                Err(()) => Err(lines.len() - 1),
                Ok(Some(a)) => Ok(pre.push(a)),
                Ok(None) => Ok(pre),
            },
        }
    }
}

/// The reading of the whole classification text.
pub open spec fn parse_csv_spec(s: Seq<u8>) -> Result<Seq<((u32, u32), Orient)>, int> {
    parse_lines(split_lines(s))
}

/// A malformed line poisons every extension of the line sequence with the
/// same error index.
proof fn lemma_parse_lines_err(a: Seq<Seq<u8>>, rest: Seq<Seq<u8>>)
    requires
        parse_lines(a) is Err,
    ensures
        parse_lines(a + rest) is Err,
        (a + rest).len() > 0,
        parse_lines(a + rest) == parse_lines(a),
    decreases rest.len(),
{
    if rest.len() == 0 {
        assert(a + rest =~= a);
        assert(a.len() > 0);
    } else {
        lemma_parse_lines_err(a, rest.drop_last());
        assert((a + rest).drop_last() =~= a + rest.drop_last());
        assert((a + rest).len() > 0);
    }
}

/// Read the classification text into its assignments, in row order, or
/// report the first malformed line.
pub fn get_csv_ranges(csv: &[u8]) -> (r: Result<Vec<((u32, u32), Orient)>, ParseError>)
    ensures
        r is Ok <==> parse_csv_spec(csv@) is Ok,
        r matches Ok(v) ==> Ok::<_, int>(v@) == parse_csv_spec(csv@),
        r matches Err(e) ==> Err::<Seq<((u32, u32), Orient)>, _>(e.line_index as int)
            == parse_csv_spec(csv@),
{
    let n = csv.len();
    let mut out: Vec<((u32, u32), Orient)> = Vec::new();
    let mut pos: usize = 0;
    let mut line_idx: usize = 0;
    let ghost mut lines_done: Seq<Seq<u8>> = Seq::empty();
    proof {
        assert(split_lines(csv@) =~= lines_done + split_lines_from(csv@, 0));
    }
    while pos < n
        invariant
            n == csv@.len(),
            pos <= n,
            line_idx <= pos,
            line_idx == lines_done.len(),
            split_lines(csv@) == lines_done + split_lines_from(csv@, pos as int),
            parse_lines(lines_done) == Ok::<_, int>(out@),
        decreases n - pos,
    {
        let e = find_byte(csv, pos, 10);
        let line = vstd::slice::slice_subrange(csv, pos, e);
        let ghost prev_done = lines_done;
        proof {
            lines_done = lines_done.push(line@);
            // One step of line splitting.
            if e == n {
                assert(split_lines_from(csv@, pos as int) =~= seq![line@]);
                assert(split_lines(csv@) =~= lines_done + split_lines_from(csv@, n as int));
            } else {
                assert(split_lines_from(csv@, pos as int)
                    =~= seq![line@] + split_lines_from(csv@, e as int + 1));
                assert(prev_done + (seq![line@] + split_lines_from(csv@, e as int + 1))
                    =~= lines_done + split_lines_from(csv@, e as int + 1));
            }
            assert(lines_done.drop_last() =~= prev_done);
            assert(lines_done.last() == line@);
        }
        match parse_line(line) {
            Err(()) => {
                proof {
                    assert(parse_lines(lines_done) == Err::<Seq<((u32, u32), Orient)>, int>(
                        line_idx as int));
                    if e == n {
                        lemma_parse_lines_err(lines_done, split_lines_from(csv@, n as int));
                    } else {
                        lemma_parse_lines_err(lines_done, split_lines_from(csv@, e as int + 1));
                    }
                }
                return Err(ParseError { line_index: line_idx });
            },
            Ok(None) => {
                proof {
                    assert(parse_lines(lines_done) == Ok::<_, int>(out@));
                }
            },
            Ok(Some(a)) => {
                out.push(a);
                proof {
                    assert(parse_lines(lines_done) == Ok::<_, int>(out@));
                }
            },
        }
        if e == n {
            pos = n;
        } else {
            pos = e + 1;
        }
        line_idx += 1;
    }
    proof {
        assert(split_lines_from(csv@, pos as int) =~= Seq::<Seq<u8>>::empty());
        assert(split_lines(csv@) =~= lines_done);
    }
    Ok(out)
}

} // verus!
