use vstd::prelude::*;

use crate::byte_read::{
    all_ws, common_prefix_len, is_ws, spec_ws, ByteRead, IoByte, MemReader, DEFAULT_CAPACITY,
};
use crate::compare::Comparison;

verus! {

/// Line feed.
pub const NL: u8 = 0x0Au8;

/// Matches after this many bytes agreed in a row, the comparison of equal
/// runs moves from single bytes to whole buffers.
pub const WARMUP: usize = 1024;

/// Whitespace other than a line feed.
pub open spec fn spec_blank(c: u8) -> bool {
    spec_ws(c) && c != NL
}

/// Length of the run of blank bytes that `s` starts with.
pub open spec fn blank_run(s: Seq<u8>) -> nat
    decreases s.len(),
{
    if s.len() > 0 && spec_blank(s[0]) {
        1 + blank_run(s.drop_first())
    } else {
        0
    }
}

/// `s` without its leading blank bytes.
pub open spec fn skip_blank(s: Seq<u8>) -> Seq<u8> {
    s.skip(blank_run(s) as int)
}

/// The line that `s` starts with holds only blank bytes up to its line feed,
/// or up to the end.
pub open spec fn line_blank(s: Seq<u8>) -> bool {
    skip_blank(s).len() == 0 || skip_blank(s)[0] == NL
}

/// What follows the line that `s` starts with.
pub open spec fn after_line(s: Seq<u8>) -> Seq<u8> {
    if skip_blank(s).len() == 0 {
        Seq::empty()
    } else {
        skip_blank(s).drop_first()
    }
}

pub proof fn lemma_blank_run_len(s: Seq<u8>)
    ensures
        blank_run(s) <= s.len(),
    decreases s.len(),
{
    if s.len() > 0 && spec_blank(s[0]) {
        lemma_blank_run_len(s.drop_first());
    }
}

#[via_fn]
proof fn lemma_normal_from_decreases(a: Seq<u8>, b: Seq<u8>, ans: Comparison) {
    if a.len() > 0 && b.len() > 0 {
        lemma_blank_run_len(a.drop_first());
        lemma_blank_run_len(b.drop_first());
    }
}

/// The verdict of the whitespace-tolerant comparison of `a` (the reference)
/// with `b` (the candidate), `ans` being the verdict found on what came
/// before.
///
/// Equal bytes are passed together. A line feed on one side must meet a line
/// of blanks on the other. Where the two differ in whitespace inside a line,
/// both blank runs are passed: two line feeds are then no fault; the same byte
/// after both makes at most a presentation error; two different bytes, or a
/// line feed against anything but a line feed or the end, are a wrong answer.
/// Where a blank run ends the stream on one side or both, the comparison goes
/// on as at any end: once one side is over, what is left of the other must be
/// whitespace, so an end against a line feed followed by blank lines is no
/// fault.
#[verifier::opaque]
pub open spec fn normal_from(a: Seq<u8>, b: Seq<u8>, ans: Comparison) -> Comparison
    decreases a.len() + b.len(),
    via lemma_normal_from_decreases
{
    if a.len() == 0 {
        if all_ws(b) {
            ans
        } else {
            Comparison::WA
        }
    } else if b.len() == 0 {
        if all_ws(a) {
            ans
        } else {
            Comparison::WA
        }
    } else if a[0] == b[0] {
        normal_from(a.drop_first(), b.drop_first(), ans)
    } else if a[0] == NL {
        if spec_ws(b[0]) && line_blank(b.drop_first()) {
            normal_from(a.drop_first(), after_line(b.drop_first()), ans)
        } else {
            Comparison::WA
        }
    } else if b[0] == NL {
        if spec_ws(a[0]) && line_blank(a.drop_first()) {
            normal_from(after_line(a.drop_first()), b.drop_first(), ans)
        } else {
            Comparison::WA
        }
    } else if !spec_ws(a[0]) && !spec_ws(b[0]) {
        Comparison::WA
    } else {
        let a2 = if spec_ws(a[0]) {
            skip_blank(a.drop_first())
        } else {
            a
        };
        let b2 = if spec_ws(b[0]) {
            skip_blank(b.drop_first())
        } else {
            b
        };
        if a2.len() == 0 || b2.len() == 0 {
            normal_from(a2, b2, ans)
        } else if a2[0] == NL && b2[0] == NL {
            normal_from(a2.drop_first(), b2.drop_first(), ans)
        } else if a2[0] == NL || b2[0] == NL {
            Comparison::WA
        } else if a2[0] == b2[0] {
            normal_from(a2.drop_first(), b2.drop_first(), Comparison::PE)
        } else {
            Comparison::WA
        }
    }
}

/// The verdict once both sides have passed a gap of whitespace inside a line
/// and stand at `a2` and `b2`.
pub open spec fn gap_verdict(a2: Seq<u8>, b2: Seq<u8>, ans: Comparison) -> Comparison {
    if a2.len() == 0 || b2.len() == 0 {
        normal_from(a2, b2, ans)
    } else if a2[0] == NL && b2[0] == NL {
        normal_from(a2.drop_first(), b2.drop_first(), ans)
    } else if a2[0] == NL || b2[0] == NL {
        Comparison::WA
    } else if a2[0] == b2[0] {
        normal_from(a2.drop_first(), b2.drop_first(), Comparison::PE)
    } else {
        Comparison::WA
    }
}

/// The verdict of the whitespace-tolerant comparison.
pub open spec fn normal_spec(std: Seq<u8>, user: Seq<u8>) -> Comparison {
    normal_from(std, user, Comparison::AC)
}

/// `a1` and `b1` are what is left of `a0` and `b0` after passing a common
/// prefix of both.
pub open spec fn passed_together(a0: Seq<u8>, b0: Seq<u8>, a1: Seq<u8>, b1: Seq<u8>) -> bool {
    let n = a0.len() - a1.len();
    &&& 0 <= n
    &&& b0.len() - b1.len() == n
    &&& a1 == a0.skip(n)
    &&& b1 == b0.skip(n)
    &&& a0.take(n) == b0.take(n)
}

/// Passing a common prefix of both sides leaves the verdict as it is.
pub proof fn lemma_common_prefix(a: Seq<u8>, b: Seq<u8>, n: int, ans: Comparison)
    requires
        0 <= n <= a.len(),
        n <= b.len(),
        a.take(n) == b.take(n),
    ensures
        normal_from(a, b, ans) == normal_from(a.skip(n), b.skip(n), ans),
    decreases n,
{
    if n == 0 {
        assert(a.skip(0) =~= a);
        assert(b.skip(0) =~= b);
    } else {
        assert(a[0] == a.take(n)[0]);
        assert(b[0] == b.take(n)[0]);
        assert(a.drop_first().take(n - 1) =~= a.take(n).drop_first());
        assert(b.drop_first().take(n - 1) =~= b.take(n).drop_first());
        assert(normal_from(a, b, ans) == normal_from(a.drop_first(), b.drop_first(), ans)) by {
            reveal(normal_from);
        }
        lemma_common_prefix(a.drop_first(), b.drop_first(), n - 1, ans);
        assert(a.drop_first().skip(n - 1) =~= a.skip(n));
        assert(b.drop_first().skip(n - 1) =~= b.skip(n));
    }
}

proof fn lemma_skip_blank_step(s: Seq<u8>)
    requires
        s.len() > 0,
    ensures
        spec_blank(s[0]) ==> skip_blank(s) == skip_blank(s.drop_first()),
        !spec_blank(s[0]) ==> skip_blank(s) == s,
{
    if spec_blank(s[0]) {
        lemma_blank_run_len(s.drop_first());
        assert(s.skip(1 + blank_run(s.drop_first()) as int) =~= s.drop_first().skip(
            blank_run(s.drop_first()) as int,
        ));
    } else {
        assert(s.skip(0) =~= s);
    }
}

proof fn lemma_all_ws_step(s: Seq<u8>)
    requires
        s.len() > 0,
    ensures
        all_ws(s) == (spec_ws(s[0]) && all_ws(s.drop_first())),
{
    if spec_ws(s[0]) && all_ws(s.drop_first()) {
        assert forall|i: int| 0 <= i < s.len() implies #[trigger] spec_ws(s[i]) by {
            if i > 0 {
                assert(s[i] == s.drop_first()[i - 1]);
            }
        }
    }
    if all_ws(s) {
        assert forall|i: int| 0 <= i < s.len() - 1 implies #[trigger] spec_ws(
            s.drop_first()[i],
        ) by {
            assert(s.drop_first()[i] == s[i + 1]);
        }
    }
}

/// Reads to the end; true if all that was read is whitespace.
fn poll_eof<R: ByteRead>(reader: &mut R) -> (r: bool)
    requires
        old(reader).inv(),
    ensures
        final(reader).inv(),
        r == all_ws(old(reader).rest()),
        r ==> final(reader).rest().len() == 0,
{
    loop
        invariant
            reader.inv(),
            all_ws(reader.rest()) == all_ws(old(reader).rest()),
        decreases reader.rest().len(),
    {
        let ghost s = reader.rest();
        proof {
            if s.len() > 0 {
                lemma_all_ws_step(s);
            }
        }
        let b = reader.next_byte();
        if b.is_eof() {
            return true;
        }
        if !is_ws(b.as_u8()) {
            return false;
        }
    }
}

/// Reads through the end of the current line; true if it held only blanks.
fn poll_endline<R: ByteRead>(reader: &mut R) -> (r: bool)
    requires
        old(reader).inv(),
    ensures
        final(reader).inv(),
        r == line_blank(old(reader).rest()),
        r ==> final(reader).rest() == after_line(old(reader).rest()),
{
    loop
        invariant
            reader.inv(),
            skip_blank(reader.rest()) == skip_blank(old(reader).rest()),
        decreases reader.rest().len(),
    {
        let ghost s = reader.rest();
        proof {
            if s.len() > 0 {
                lemma_skip_blank_step(s);
            } else {
                assert(s.skip(0) =~= s);
            }
        }
        let b = reader.next_byte();
        if b.is_eof() || b.as_u8() == NL {
            return true;
        }
        if !is_ws(b.as_u8()) {
            return false;
        }
    }
}

/// Reads past blank bytes; returns the first line feed, other byte or end.
fn poll_nonspace<R: ByteRead>(reader: &mut R) -> (r: IoByte)
    requires
        old(reader).inv(),
    ensures
        final(reader).inv(),
        r.eof ==> final(reader).rest().len() == 0,
        r.with_rest(final(reader).rest()) == skip_blank(old(reader).rest()),
{
    loop
        invariant
            reader.inv(),
            skip_blank(reader.rest()) == skip_blank(old(reader).rest()),
        decreases reader.rest().len(),
    {
        let ghost s = reader.rest();
        proof {
            if s.len() > 0 {
                lemma_skip_blank_step(s);
            } else {
                assert(s.skip(0) =~= s);
            }
        }
        let b = reader.next_byte();
        if b.is_eof() || b.as_u8() == NL || !is_ws(b.as_u8()) {
            proof {
                if !b.eof {
                    assert(s =~= seq![b.byte] + reader.rest());
                }
            }
            return b;
        }
    }
}

/// The verdict once the other side is over: `ans` if all that is left here
/// is whitespace.
fn handle_eof<R: ByteRead>(rhs: &mut R, rhs_byte: IoByte, ans: Comparison) -> (r: Comparison)
    requires
        old(rhs).inv(),
        rhs_byte.eof ==> old(rhs).rest().len() == 0,
    ensures
        final(rhs).inv(),
        r == (if all_ws(rhs_byte.with_rest(old(rhs).rest())) {
            ans
        } else {
            Comparison::WA
        }),
{
    if rhs_byte.is_eof() {
        return ans;
    }
    let ghost whole = rhs_byte.with_rest(rhs.rest());
    proof {
        lemma_all_ws_step(whole);
        assert(whole.drop_first() =~= rhs.rest());
    }
    if !is_ws(rhs_byte.as_u8()) {
        return Comparison::WA;
    }
    if poll_eof(rhs) {
        ans
    } else {
        Comparison::WA
    }
}

/// Passes the common prefix of both sources a buffer at a time; returns how
/// many bytes it passed on each side.
fn diff_block<R1: ByteRead, R2: ByteRead>(lhs: &mut R1, rhs: &mut R2) -> (r: usize)
    requires
        old(lhs).inv(),
        old(rhs).inv(),
    ensures
        final(lhs).inv(),
        final(rhs).inv(),
        r <= old(lhs).rest().len(),
        passed_together(old(lhs).rest(), old(rhs).rest(), final(lhs).rest(), final(rhs).rest()),
        old(lhs).rest().len() - final(lhs).rest().len() == r,
        final(lhs).rest().len() == 0 || final(rhs).rest().len() == 0 || final(lhs).rest()[0]
            != final(rhs).rest()[0],
{
    let ghost a0 = lhs.rest();
    let ghost b0 = rhs.rest();
    proof {
        lhs.lemma_rest_fits();
        assert(a0.skip(0) =~= a0);
        assert(b0.skip(0) =~= b0);
        assert(a0.take(0) =~= b0.take(0));
    }
    let mut total: usize = 0;
    loop
        invariant
            lhs.inv(),
            rhs.inv(),
            a0 == old(lhs).rest(),
            b0 == old(rhs).rest(),
            a0.len() <= usize::MAX,
            passed_together(a0, b0, lhs.rest(), rhs.rest()),
            a0.len() - lhs.rest().len() == total,
        decreases lhs.rest().len(),
    {
        lhs.fill_buf();
        rhs.fill_buf();
        let a = lhs.buffer();
        let b = rhs.buffer();
        let k = common_prefix_len(a, b);
        let more = k == a.len() || k == b.len();
        if k == 0 {
            return total;
        }
        proof {
            let n = total as int;
            let a1 = lhs.rest();
            let b1 = rhs.rest();
            assert(a0.take(n + k) =~= a0.take(n) + a1.take(k as int));
            assert(b0.take(n + k) =~= b0.take(n) + b1.take(k as int));
            assert(a1.take(k as int) =~= a@.take(k as int));
            assert(b1.take(k as int) =~= b@.take(k as int));
            assert(a1.skip(k as int) =~= a0.skip(n + k));
            assert(b1.skip(k as int) =~= b0.skip(n + k));
        }
        lhs.consume(k);
        rhs.consume(k);
        total = total + k;
        if !more {
            return total;
        }
    }
}

/// Passes equal bytes on both sides; returns the first pair that differs, or
/// the two ends. After a warm-up of single bytes in agreement it passes whole
/// buffers at once.
fn poll_diff<R1: ByteRead, R2: ByteRead>(lhs: &mut R1, rhs: &mut R2, bulk: bool) -> (r: (
    IoByte,
    IoByte,
))
    requires
        old(lhs).inv(),
        old(rhs).inv(),
    ensures
        final(lhs).inv(),
        final(rhs).inv(),
        r.0.eof ==> final(lhs).rest().len() == 0,
        r.1.eof ==> final(rhs).rest().len() == 0,
        r.0.eof || r.1.eof || r.0.byte != r.1.byte,
        passed_together(
            old(lhs).rest(),
            old(rhs).rest(),
            r.0.with_rest(final(lhs).rest()),
            r.1.with_rest(final(rhs).rest()),
        ),
{
    let ghost a0 = lhs.rest();
    let ghost b0 = rhs.rest();
    proof {
        lhs.lemma_rest_fits();
        assert(a0.skip(0) =~= a0);
        assert(b0.skip(0) =~= b0);
        assert(a0.take(0) =~= b0.take(0));
    }
    let mut eq_cnt: usize = 0;
    let mut cmp_cnt: usize = 0;
    loop
        invariant
            lhs.inv(),
            rhs.inv(),
            a0 == old(lhs).rest(),
            b0 == old(rhs).rest(),
            a0.len() <= usize::MAX,
            passed_together(a0, b0, lhs.rest(), rhs.rest()),
            eq_cnt <= cmp_cnt,
            cmp_cnt <= a0.len() - lhs.rest().len(),
        decreases lhs.rest().len(),
    {
        if bulk && cmp_cnt >= WARMUP && eq_cnt > cmp_cnt - cmp_cnt / 256 {
            let ghost a1 = lhs.rest();
            let ghost b1 = rhs.rest();
            let len = diff_block(lhs, rhs);
            proof {
                let n = a0.len() - a1.len();
                assert(a0.take(n + len) =~= a0.take(n) + a1.take(len as int));
                assert(b0.take(n + len) =~= b0.take(n) + b1.take(len as int));
                assert(lhs.rest() =~= a0.skip(n + len));
                assert(rhs.rest() =~= b0.skip(n + len));
            }
            eq_cnt = eq_cnt + len;
            cmp_cnt = cmp_cnt + len;
        }
        let ghost a1 = lhs.rest();
        let ghost b1 = rhs.rest();
        let lb = lhs.next_byte();
        let rb = rhs.next_byte();
        if lb.is_eof() || rb.is_eof() || lb.as_u8() != rb.as_u8() {
            proof {
                assert(lb.with_rest(lhs.rest()) =~= a1);
                assert(rb.with_rest(rhs.rest()) =~= b1);
            }
            return (lb, rb);
        }
        proof {
            let n = a0.len() - a1.len();
            assert(a0.take(n + 1) =~= a0.take(n).push(lb.byte));
            assert(b0.take(n + 1) =~= b0.take(n).push(rb.byte));
            assert(lhs.rest() =~= a0.skip(n + 1));
            assert(rhs.rest() =~= b0.skip(n + 1));
        }
        eq_cnt = eq_cnt + 1;
        cmp_cnt = cmp_cnt + 1;
    }
}

/// Compares `std_reader` with `user_reader` tolerating differences in
/// whitespace: runs of blanks, line endings, and whitespace at the end.
/// Long runs of agreement are passed a buffer at a time.
pub fn normal_compare<R1: ByteRead, R2: ByteRead>(std_reader: &mut R1, user_reader: &mut R2) -> (r:
    Comparison)
    requires
        old(std_reader).inv(),
        old(user_reader).inv(),
    ensures
        final(std_reader).inv(),
        final(user_reader).inv(),
        r == normal_spec(old(std_reader).rest(), old(user_reader).rest()),
{
    compare_with(std_reader, user_reader, true)
}

/// The same comparison as `normal_compare`, passing every byte singly.
pub fn normal_compare_bytewise<R1: ByteRead, R2: ByteRead>(
    std_reader: &mut R1,
    user_reader: &mut R2,
) -> (r: Comparison)
    requires
        old(std_reader).inv(),
        old(user_reader).inv(),
    ensures
        final(std_reader).inv(),
        final(user_reader).inv(),
        r == normal_spec(old(std_reader).rest(), old(user_reader).rest()),
{
    compare_with(std_reader, user_reader, false)
}

#[verifier::spinoff_prover]
#[verifier::rlimit(100)]
fn compare_with<R1: ByteRead, R2: ByteRead>(std_reader: &mut R1, user_reader: &mut R2, bulk: bool) -> (r:
    Comparison)
    requires
        old(std_reader).inv(),
        old(user_reader).inv(),
    ensures
        final(std_reader).inv(),
        final(user_reader).inv(),
        r == normal_spec(old(std_reader).rest(), old(user_reader).rest()),
{
    let ghost target = normal_spec(std_reader.rest(), user_reader.rest());
    let ghost s0 = std_reader.rest();
    let ghost u0 = user_reader.rest();
    let mut std_byte = std_reader.next_byte();
    let mut user_byte = user_reader.next_byte();
    proof {
        assert(std_byte.with_rest(std_reader.rest()) =~= s0);
        assert(user_byte.with_rest(user_reader.rest()) =~= u0);
    }
    let mut ans = Comparison::AC;
    loop
        invariant
            std_reader.inv(),
            user_reader.inv(),
            target == normal_spec(old(std_reader).rest(), old(user_reader).rest()),
            std_byte.eof ==> std_reader.rest().len() == 0,
            user_byte.eof ==> user_reader.rest().len() == 0,
            target == normal_from(
                std_byte.with_rest(std_reader.rest()),
                user_byte.with_rest(user_reader.rest()),
                ans,
            ),
        decreases std_byte.with_rest(std_reader.rest()).len() + user_byte.with_rest(
            user_reader.rest(),
        ).len(),
    {
        let ghost a = std_byte.with_rest(std_reader.rest());
        let ghost b = user_byte.with_rest(user_reader.rest());
        if std_byte.is_eof() {
            assert(normal_from(a, b, ans) == (if all_ws(b) {
                ans
            } else {
                Comparison::WA
            })) by {
                reveal(normal_from);
            }
            return handle_eof(user_reader, user_byte, ans);
        }
        if user_byte.is_eof() {
            assert(normal_from(a, b, ans) == (if all_ws(a) {
                ans
            } else {
                Comparison::WA
            })) by {
                reveal(normal_from);
            }
            return handle_eof(std_reader, std_byte, ans);
        }
        let x = std_byte.as_u8();
        let y = user_byte.as_u8();
        proof {
            assert(a.drop_first() =~= std_reader.rest());
            assert(b.drop_first() =~= user_reader.rest());
            lemma_blank_run_len(a.drop_first());
            lemma_blank_run_len(b.drop_first());
        }
        if x == y {
            assert(normal_from(a, b, ans) == normal_from(a.drop_first(), b.drop_first(), ans)) by {
                reveal(normal_from);
            }
            let ghost a1 = std_reader.rest();
            let ghost b1 = user_reader.rest();
            let ret = poll_diff(std_reader, user_reader, bulk);
            std_byte = ret.0;
            user_byte = ret.1;
            proof {
                let n = a1.len() - std_byte.with_rest(std_reader.rest()).len();
                lemma_common_prefix(a1, b1, n, ans);
            }
            continue;
        }
        if x == NL {
            assert(normal_from(a, b, ans) == (if spec_ws(y) && line_blank(b.drop_first()) {
                normal_from(a.drop_first(), after_line(b.drop_first()), ans)
            } else {
                Comparison::WA
            })) by {
                reveal(normal_from);
            }
            if !is_ws(y) {
                return Comparison::WA;
            }
            if poll_endline(user_reader) {
                std_byte = std_reader.next_byte();
                user_byte = user_reader.next_byte();
                proof {
                    assert(std_byte.with_rest(std_reader.rest()) =~= a.drop_first());
                    assert(user_byte.with_rest(user_reader.rest()) =~= after_line(b.drop_first()));
                }
                continue;
            } else {
                return Comparison::WA;
            }
        }
        if y == NL {
            assert(normal_from(a, b, ans) == (if spec_ws(x) && line_blank(a.drop_first()) {
                normal_from(after_line(a.drop_first()), b.drop_first(), ans)
            } else {
                Comparison::WA
            })) by {
                reveal(normal_from);
            }
            if !is_ws(x) {
                return Comparison::WA;
            }
            if poll_endline(std_reader) {
                std_byte = std_reader.next_byte();
                user_byte = user_reader.next_byte();
                proof {
                    assert(std_byte.with_rest(std_reader.rest()) =~= after_line(a.drop_first()));
                    assert(user_byte.with_rest(user_reader.rest()) =~= b.drop_first());
                }
                continue;
            } else {
                return Comparison::WA;
            }
        }
        let flaga = is_ws(x);
        let flagb = is_ws(y);
        if !flaga && !flagb {
            assert(normal_from(a, b, ans) == Comparison::WA) by {
                reveal(normal_from);
            }
            return Comparison::WA;
        }
        if flaga {
            std_byte = poll_nonspace(std_reader);
        }
        if flagb {
            user_byte = poll_nonspace(user_reader);
        }
        let ghost a2 = std_byte.with_rest(std_reader.rest());
        let ghost b2 = user_byte.with_rest(user_reader.rest());
        proof {
            if !flaga {
                assert(a2 =~= a);
            }
            if !flagb {
                assert(b2 =~= b);
            }
            assert(normal_from(a, b, ans) == gap_verdict(a2, b2, ans)) by {
                reveal(normal_from);
            }
        }
        if std_byte.is_eof() || user_byte.is_eof() {
            continue;
        }
        let x2 = std_byte.as_u8();
        let y2 = user_byte.as_u8();
        proof {
            assert(a2.drop_first() =~= std_reader.rest());
            assert(b2.drop_first() =~= user_reader.rest());
        }
        if x2 == NL && y2 == NL {
            std_byte = std_reader.next_byte();
            user_byte = user_reader.next_byte();
            proof {
                assert(std_byte.with_rest(std_reader.rest()) =~= a2.drop_first());
                assert(user_byte.with_rest(user_reader.rest()) =~= b2.drop_first());
            }
            continue;
        }
        if x2 == NL || y2 == NL {
            return Comparison::WA;
        }
        if x2 == y2 {
            ans = Comparison::PE;
            std_byte = std_reader.next_byte();
            user_byte = user_reader.next_byte();
            proof {
                assert(std_byte.with_rest(std_reader.rest()) =~= a2.drop_first());
                assert(user_byte.with_rest(user_reader.rest()) =~= b2.drop_first());
            }
            continue;
        }
        return Comparison::WA;
    }
}

/// Compares two byte strings tolerating differences in whitespace.
pub fn compare_normalized(std: &[u8], user: &[u8]) -> (r: Comparison)
    ensures
        r == normal_spec(std@, user@),
{
    let mut a = MemReader::from_slice(std, DEFAULT_CAPACITY);
    let mut b = MemReader::from_slice(user, DEFAULT_CAPACITY);
    normal_compare(&mut a, &mut b)
}

} // verus!
