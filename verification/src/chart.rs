use vstd::prelude::*;
use crate::format::push_text;
use crate::history::HISTORY;

verus! {

/// The texts held by a vector of strings.
pub open spec fn texts(v: Seq<String>) -> Seq<Seq<char>> {
    v.map_values(|s: String| s@)
}

/// The SVG path through the first `k` points, `"M x0 y0 L x1 y1 ..."`
/// written as `"Mx0 y0 Lx1 y1"`.
pub open spec fn path_prefix(xs: Seq<Seq<char>>, ys: Seq<Seq<char>>, k: nat) -> Seq<char>
    decreases k,
{
    if k == 0 {
        Seq::empty()
    } else if k == 1 {
        seq!['M'] + xs[0] + seq![' '] + ys[0]
    } else {
        path_prefix(xs, ys, (k - 1) as nat) + seq![' ', 'L'] + xs[k - 1] + seq![' '] + ys[k - 1]
    }
}

/// The outline path: the line closed down to the baseline at the last
/// point, back along the baseline to the first point, and shut.
pub open spec fn area_path(
    xs: Seq<Seq<char>>,
    ys: Seq<Seq<char>>,
    floor: Seq<char>,
) -> Seq<char> {
    path_prefix(xs, ys, xs.len()) + seq![' ', 'L'] + xs.last() + seq![' '] + floor + seq![' ', 'L']
        + xs[0] + seq![' '] + floor + seq!['Z']
}

/// How a line path is drawn: one point gives `"M" x0 " " y0`; each
/// further point `k` extends the path through its first `k` points by
/// exactly `" L" xk " " yk`, whatever the number of points; so the path
/// through one or more points is never empty and starts at `x0 y0`.
pub proof fn lemma_line_path_shape(xs: Seq<Seq<char>>, ys: Seq<Seq<char>>, k: nat)
    requires
        1 <= k <= xs.len(),
        xs.len() == ys.len(),
    ensures
        path_prefix(xs, ys, 1) == seq!['M'] + xs[0] + seq![' '] + ys[0],
        k >= 2 ==> path_prefix(xs, ys, k) == path_prefix(xs, ys, (k - 1) as nat) + seq![' ', 'L']
            + xs[k - 1] + seq![' '] + ys[k - 1],
        path_prefix(xs, ys, k).len() >= 1 + xs[0].len() + 1 + ys[0].len(),
        path_prefix(xs, ys, k).subrange(0, 2 + xs[0].len() + ys[0].len() as int) == seq!['M'] + xs[0]
            + seq![' '] + ys[0],
    decreases k,
{
    if k >= 2 {
        lemma_line_path_shape(xs, ys, (k - 1) as nat);
        let p = path_prefix(xs, ys, (k - 1) as nat);
        let q = path_prefix(xs, ys, k);
        let len0: int = 2 + xs[0].len() + ys[0].len() as int;
        assert(q.subrange(0, len0) =~= p.subrange(0, len0));
    } else {
        let q = path_prefix(xs, ys, 1);
        assert(q.subrange(0, 2 + xs[0].len() + ys[0].len() as int) =~= q);
    }
}

/// The horizontal slot of sample `i` among the `n` most recent: the
/// newest sample always sits in the last of the `HISTORY` slots.
pub fn chart_slot(n: usize, i: usize) -> (slot: usize)
    requires
        i < n <= HISTORY,
    ensures
        slot == HISTORY - n + i,
        slot < HISTORY,
{
    HISTORY - n + i
}

/// The line path and the filled-area path of a chart whose points have
/// the already written coordinates `xs[i]`, `ys[i]`; `floor` is the
/// written baseline. Fewer than two points draw nothing.
pub fn svg_area(xs: &Vec<String>, ys: &Vec<String>, floor: &String) -> (paths: (String, String))
    requires
        xs.len() == ys.len(),
    ensures
        xs.len() < 2 ==> paths.0@ == Seq::<char>::empty() && paths.1@ == Seq::<char>::empty(),
        xs.len() >= 2 ==> paths.0@ == path_prefix(texts(xs@), texts(ys@), xs.len() as nat),
        xs.len() >= 2 ==> paths.1@ == area_path(texts(xs@), texts(ys@), floor@),
        xs.len() >= 2 ==> paths.0@.len() > 0 && paths.0@[0] == 'M',
        xs.len() >= 2 ==> paths.1@ == paths.0@ + seq![' ', 'L'] + xs@.last()@ + seq![' '] + floor@
            + seq![' ', 'L'] + xs@[0]@ + seq![' '] + floor@ + seq!['Z'],
{
    let n = xs.len();
    if n < 2 {
        return (String::new(), String::new());
    }
    let ghost tx = texts(xs@);
    let ghost ty = texts(ys@);
    let mut line = String::new();
    let mut i: usize = 0;
    while i < n
        invariant
            n == xs.len(),
            n == ys.len(),
            i <= n,
            tx == texts(xs@),
            ty == texts(ys@),
            line@ == path_prefix(tx, ty, i as nat),
        decreases n - i,
    {
        if i == 0 {
            proof { reveal_strlit("M"); }
            push_text(&mut line, "M");
        } else {
            proof { reveal_strlit(" L"); }
            push_text(&mut line, " L");
        }
        line.append(xs[i].as_str());
        proof { reveal_strlit(" "); }
        push_text(&mut line, " ");
        line.append(ys[i].as_str());
        proof {
            assert(line@ =~= path_prefix(tx, ty, (i + 1) as nat));
        }
        i = i + 1;
    }
    let mut area = line.clone();
    proof { reveal_strlit(" L"); reveal_strlit(" "); reveal_strlit("Z"); }
    push_text(&mut area, " L");
    area.append(xs[n - 1].as_str());
    push_text(&mut area, " ");
    area.append(floor.as_str());
    push_text(&mut area, " L");
    area.append(xs[0].as_str());
    push_text(&mut area, " ");
    area.append(floor.as_str());
    push_text(&mut area, "Z");
    proof {
        assert(area@ =~= area_path(tx, ty, floor@));
        lemma_line_path_shape(tx, ty, n as nat);
        let len0: int = 2 + tx[0].len() + ty[0].len() as int;
        assert(line@.subrange(0, len0)[0] == line@[0]);
        assert((seq!['M'] + tx[0] + seq![' '] + ty[0])[0] == 'M');
        assert(tx[0] == xs@[0]@);
        assert(tx.last() == xs@.last()@);
    }
    (line, area)
}

} // verus!
