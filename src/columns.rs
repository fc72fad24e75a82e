use vstd::prelude::*;

verus! {

/// ASCII whitespace: space, tab, line feed, vertical tab, form feed, carriage return
pub open spec fn is_blank(b: u8) -> bool {
    b == 32 || (9 <= b && b <= 13)
}

/// A line of input that starts with `#` is a comment.
pub fn is_comment(line: &[u8]) -> (r: bool)
    ensures
        r == (line@.len() > 0 && line@[0] == 35),
{
    line.len() > 0 && line[0] == 35
}

/// `r` holds, in order, the byte ranges `[start, end)` of the first at most `n`
/// columns of `s`, columns being the maximal runs of non-blank bytes; fewer than
/// `n` only where `s` has no more.
pub open spec fn first_columns_of(s: Seq<u8>, n: int, r: Seq<(usize, usize)>) -> bool {
    &&& r.len() <= n
    &&& forall|k: int|
        0 <= k < r.len() ==> {
            &&& (#[trigger] r[k]).0 < r[k].1 <= s.len()
            &&& forall|p: int| r[k].0 <= p < r[k].1 ==> !is_blank(s[p])
            &&& r[k].1 == s.len() || is_blank(s[r[k].1 as int])
        }
    &&& forall|k: int, p: int|
        #![trigger r[k], s[p]]
        0 < k < r.len() && r[k - 1].1 <= p < r[k].0 ==> is_blank(s[p])
    &&& forall|k: int| 0 < k < r.len() ==> r[k - 1].1 <= (#[trigger] r[k]).0
    &&& forall|p: int| r.len() > 0 && 0 <= p < r[0].0 ==> is_blank(s[p])
    &&& r.len() < n ==> forall|p: int|
        (if r.len() == 0 {
            0
        } else {
            r[r.len() - 1].1 as int
        }) <= p < s.len() ==> is_blank(s[p])
}

/// The byte ranges of the first at most `n` whitespace-separated columns of a line
pub fn first_columns(line: &[u8], n: usize) -> (r: Vec<(usize, usize)>)
    ensures
        first_columns_of(line@, n as int, r@),
{
    let len = line.len();
    let mut r: Vec<(usize, usize)> = Vec::new();
    let mut p: usize = 0;
    while r.len() < n && p < len
        invariant_except_break
            p == if r@.len() == 0 {
                0
            } else {
                r@[r@.len() - 1].1
            },
        invariant
            len == line@.len(),
            p <= len,
            r@.len() <= n,
            forall|k: int|
                0 <= k < r@.len() ==> {
                    &&& (#[trigger] r@[k]).0 < r@[k].1 <= line@.len()
                    &&& forall|q: int| r@[k].0 <= q < r@[k].1 ==> !is_blank(line@[q])
                    &&& r@[k].1 == line@.len() || is_blank(line@[r@[k].1 as int])
                },
            forall|k: int, q: int|
                #![trigger r@[k], line@[q]]
                0 < k < r@.len() && r@[k - 1].1 <= q < r@[k].0 ==> is_blank(line@[q]),
            forall|k: int| 0 < k < r@.len() ==> r@[k - 1].1 <= (#[trigger] r@[k]).0,
            forall|q: int| r@.len() > 0 && 0 <= q < r@[0].0 ==> is_blank(line@[q]),
        ensures
            first_columns_of(line@, n as int, r@),
        decreases len - p,
    {
        let p0 = p;
        while p < len && (line[p] == 32 || (9 <= line[p] && line[p] <= 13))
            invariant
                len == line@.len(),
                p0 <= p <= len,
                forall|q: int| p0 <= q < p ==> is_blank(line@[q]),
            decreases len - p,
        {
            p = p + 1;
        }
        if p == len {
            break;
        }
        let a = p;
        while p < len && !(line[p] == 32 || (9 <= line[p] && line[p] <= 13))
            invariant
                len == line@.len(),
                a <= p <= len,
                forall|q: int| a <= q < p ==> !is_blank(line@[q]),
            decreases len - p,
        {
            p = p + 1;
        }
        let ghost r0 = r@;
        r.push((a, p));
        proof {
            assert(r@[r@.len() - 1] == (a, p));
            assert forall|k: int| 0 <= k < r0.len() implies r@[k] == r0[k] by {}
        }
    }
    r
}

} // verus!
