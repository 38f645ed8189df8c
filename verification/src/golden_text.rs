//! Text filters for output that is compared with a stored copy.
//!
//! Some parts of a rendered SVG change from run to run, such as the id of the
//! drawing surface's group element: each line that opens that group is
//! replaced by one fixed line.  Decimal numbers written at a reduced precision
//! lose their trailing zeros, and then a trailing point.

use vstd::prelude::*;

verus! {

/// The start of a line that opens the surface's group element: `<g id="surface`.
pub open spec fn surface_group_start() -> Seq<u8> {
    seq![60u8, 103u8, 32u8, 105u8, 100u8, 61u8, 34u8, 115u8, 117u8, 114u8, 102u8, 97u8, 99u8, 101u8]
}

/// The fixed line that stands for it: `<g id="surfaceXXXX">`.
pub open spec fn surface_group_stand_in() -> Seq<u8> {
    surface_group_start() + seq![88u8, 88u8, 88u8, 88u8, 34u8, 62u8]
}

/// `line` starts with `start`.
pub open spec fn starts_with(line: Seq<u8>, start: Seq<u8>) -> bool {
    line.len() >= start.len() && line.subrange(0, start.len() as int) == start
}

/// `line` starts with `start` exactly when it is at least as long and agrees
/// with `start` at each of `start`'s positions, whatever its length beyond.
pub proof fn lemma_starts_with(line: Seq<u8>, start: Seq<u8>)
    ensures
        starts_with(line, start) <==> (line.len() >= start.len() && forall|k: int|
            0 <= k < start.len() ==> line[k] == start[k]),
{
    if line.len() >= start.len() && forall|k: int| 0 <= k < start.len() ==> line[k] == start[k] {
        assert(line.subrange(0, start.len() as int) =~= start);
    }
    if starts_with(line, start) {
        assert forall|k: int| 0 <= k < start.len() implies line[k] == start[k] by {
            assert(line.subrange(0, start.len() as int)[k] == line[k]);
        }
    }
}

/// The line to keep for `line`: the fixed stand-in where `line` opens the
/// surface's group, and `line` itself otherwise.
pub fn filter_svg_line(line: &[u8]) -> (r: Vec<u8>)
    ensures
        r@ == if starts_with(line@, surface_group_start()) {
            surface_group_stand_in()
        } else {
            line@
        },
        (line@.len() >= 14 && forall|k: int| 0 <= k < 14 ==> line@[k] == surface_group_start()[k])
            ==> r@ == surface_group_stand_in(),
        !(line@.len() >= 14 && forall|k: int| 0 <= k < 14 ==> line@[k] == surface_group_start()[k])
            ==> r@ == line@,
{
    let start: Vec<u8> = vec![60u8, 103u8, 32u8, 105u8, 100u8, 61u8, 34u8, 115u8, 117u8, 114u8, 102u8, 97u8, 99u8, 101u8];
    assert(start@ == surface_group_start());
    let mut matches = line.len() >= start.len();
    let mut i: usize = 0;
    while matches && i < start.len()
        invariant
            start@ == surface_group_start(),
            i <= start@.len(),
            matches ==> line@.len() >= start@.len(),
            matches ==> forall|k: int| 0 <= k < i ==> line@[k] == start@[k],
            !matches ==> !starts_with(line@, surface_group_start()),
        decreases start@.len() - i,
    {
        if line[i] != start[i] {
            proof {
                if starts_with(line@, surface_group_start()) {
                    assert(line@.subrange(0, start@.len() as int)[i as int] == line@[i as int]);
                }
            }
            matches = false;
        }
        i += 1;
    }
    proof {
        lemma_starts_with(line@, surface_group_start());
    }
    if matches {
        assert(line@.subrange(0, start@.len() as int) =~= start@);
        let mut stand_in = start;
        stand_in.push(88u8);
        stand_in.push(88u8);
        stand_in.push(88u8);
        stand_in.push(88u8);
        stand_in.push(34u8);
        stand_in.push(62u8);
        assert(stand_in@ =~= surface_group_stand_in());
        stand_in
    } else {
        let mut kept: Vec<u8> = Vec::new();
        let mut j: usize = 0;
        while j < line.len()
            invariant
                j <= line@.len(),
                kept@ == line@.subrange(0, j as int),
            decreases line@.len() - j,
        {
            kept.push(line[j]);
            j += 1;
        }
        assert(kept@ =~= line@);
        kept
    }
}

/// `s` without its trailing `c` bytes.
pub open spec fn trim_end(s: Seq<u8>, c: u8) -> Seq<u8>
    decreases s.len(),
{
    if s.len() > 0 && s[s.len() - 1] == c {
        trim_end(s.drop_last(), c)
    } else {
        s
    }
}

/// `trim_end(s, c)` is `s` with every trailing `c` dropped: it is a prefix of
/// `s`, it does not end in `c`, and the rest of `s` is all `c`.
pub proof fn lemma_trim_end(s: Seq<u8>, c: u8)
    ensures
        trim_end(s, c).len() <= s.len(),
        trim_end(s, c) == s.subrange(0, trim_end(s, c).len() as int),
        trim_end(s, c).len() == 0 || trim_end(s, c).last() != c,
        forall|i: int| trim_end(s, c).len() <= i < s.len() ==> #[trigger] s[i] == c,
    decreases s.len(),
{
    if s.len() > 0 && s[s.len() - 1] == c {
        lemma_trim_end(s.drop_last(), c);
        let t = trim_end(s.drop_last(), c);
        assert(s.drop_last().subrange(0, t.len() as int) =~= s.subrange(0, t.len() as int));
        assert forall|i: int| t.len() <= i < s.len() implies #[trigger] s[i] == c by {
            if i < s.len() - 1 {
                assert(s.drop_last()[i] == s[i]);
            }
        }
    } else {
        assert(s.subrange(0, s.len() as int) =~= s);
    }
}

/// The length of `text[..end]` once its trailing `c` bytes are dropped.
fn trimmed_end(text: &[u8], end: usize, c: u8) -> (r: usize)
    requires
        end <= text@.len(),
    ensures
        r <= end,
        text@.subrange(0, r as int) == trim_end(text@.subrange(0, end as int), c),
        r == 0 || text@[r - 1] != c,
        forall|i: int| r <= i < end ==> #[trigger] text@[i] == c,
{
    let mut k = end;
    while k > 0 && text[k - 1] == c
        invariant
            k <= end <= text@.len(),
            trim_end(text@.subrange(0, k as int), c) == trim_end(text@.subrange(0, end as int), c),
            forall|i: int| k <= i < end ==> #[trigger] text@[i] == c,
        decreases k,
    {
        assert(text@.subrange(0, k as int).drop_last() =~= text@.subrange(0, k - 1));
        k -= 1;
    }
    k
}

/// After position `kept`, `text` holds points up to `m` and zeros from `m` on,
/// and the byte before `m` is no zero: every trailing zero is in the tail.
pub open spec fn dots_then_zeros(text: Seq<u8>, kept: int, m: int) -> bool {
    &&& 0 <= kept <= m <= text.len()
    &&& m == 0 || text[m - 1] != 48u8
    &&& forall|i: int| kept <= i < m ==> #[trigger] text[i] == 46u8
    &&& forall|i: int| m <= i < text.len() ==> #[trigger] text[i] == 48u8
}

/// A decimal number's text without its trailing zeros, and then without a
/// trailing point: `2.500` becomes `2.5`, and `3.000` becomes `3`.
pub fn trim_decimal(text: &[u8]) -> (r: Vec<u8>)
    ensures
        r@ == trim_end(trim_end(text@, 48u8), 46u8),
        r@ == text@.subrange(0, r@.len() as int),
        r@.len() == 0 || r@.last() != 46u8,
        exists|m: int| #[trigger] dots_then_zeros(text@, r@.len() as int, m),
{
    let no_zeros = trimmed_end(text, text.len(), 48u8);
    assert(text@.subrange(0, text@.len() as int) =~= text@);
    let end = trimmed_end(text, no_zeros, 46u8);
    let mut kept: Vec<u8> = Vec::new();
    let mut j: usize = 0;
    while j < end
        invariant
            end <= text@.len(),
            j <= end,
            kept@ == text@.subrange(0, j as int),
        decreases end - j,
    {
        kept.push(text[j]);
        j += 1;
    }
    proof {
        assert(text@.subrange(0, no_zeros as int).subrange(0, end as int) =~= text@.subrange(
            0,
            end as int,
        ));
        assert(forall|i: int| end <= i < no_zeros ==> #[trigger] text@[i] == 46u8);
        assert(end == 0 || text@[end - 1] != 46u8);
        assert(dots_then_zeros(text@, end as int, no_zeros as int));
    }
    kept
}

} // verus!
