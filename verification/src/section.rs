//! Vertical positions of the paragraphs of a section.
use vstd::prelude::*;
use crate::paragraph::{i32_range, LineSeg, Paragraph};

verus! {

/// Where the line after `s` begins.
pub open spec fn seg_end(s: LineSeg) -> int {
    s.vertical_pos + s.line_height + s.line_spacing
}

/// Computing the end of `s` stays within 32 bits.
pub open spec fn end_fits(s: LineSeg) -> bool {
    i32_range(s.vertical_pos + s.line_height) && i32_range(seg_end(s))
}

/// The segments moved down by `delta`.
pub open spec fn shift_segs(segs: Seq<LineSeg>, delta: int) -> Seq<LineSeg> {
    Seq::new(
        segs.len(),
        |j: int| LineSeg { vertical_pos: (segs[j].vertical_pos + delta) as i32, ..segs[j] },
    )
}

/// Where the paragraph at `start` should begin: where the one before it ends (0 if it has
/// no lines), or, for the first paragraph, where it begins now.
pub open spec fn initial_next(paras: Seq<Paragraph>, start: int) -> int {
    if start > 0 {
        let prev = paras[start - 1].line_segs@;
        if prev.len() > 0 {
            seg_end(prev.last())
        } else {
            0
        }
    } else {
        let segs = paras[0].line_segs@;
        if segs.len() > 0 {
            segs[0].vertical_pos as int
        } else {
            0
        }
    }
}

/// Where paragraph `pi` (at or after `start`) should begin: where the last paragraph with
/// lines before it ends once moved.
pub open spec fn next_before(paras: Seq<Paragraph>, start: int, pi: int) -> int
    decreases pi - start,
{
    if pi <= start {
        initial_next(paras, start)
    } else {
        let segs = paras[pi - 1].line_segs@;
        let nx = next_before(paras, start, pi - 1);
        if segs.len() == 0 {
            nx
        } else {
            seg_end(segs.last()) + (nx - segs[0].vertical_pos)
        }
    }
}

/// The line segments of paragraph `pi` after the recalculation: paragraphs before `start`
/// and paragraphs without lines keep theirs; the others move so that they begin at
/// `next_before`.
pub open spec fn spec_section_segs(paras: Seq<Paragraph>, start: int, pi: int) -> Seq<LineSeg> {
    let segs = paras[pi].line_segs@;
    if pi < start || segs.len() == 0 {
        segs
    } else {
        shift_segs(segs, next_before(paras, start, pi) - segs[0].vertical_pos)
    }
}

/// Moving paragraph `pi` stays within 32 bits.
pub open spec fn para_fits(paras: Seq<Paragraph>, start: int, pi: int) -> bool {
    let segs = paras[pi].line_segs@;
    let delta = next_before(paras, start, pi) - segs[0].vertical_pos;
    &&& i32_range(delta)
    &&& forall|j: int| 0 <= j < segs.len() ==> i32_range((#[trigger] segs[j]).vertical_pos + delta)
    &&& end_fits(shift_segs(segs, delta).last())
}

/// The recalculation stays within 32 bits.
pub open spec fn section_fits(paras: Seq<Paragraph>, start: int) -> bool {
    &&& (0 < start < paras.len() && paras[start - 1].line_segs@.len() > 0) ==> end_fits(
        paras[start - 1].line_segs@.last(),
    )
    &&& forall|pi: int|
        start <= pi < paras.len() && paras[pi].line_segs@.len() > 0 ==> #[trigger] para_fits(
            paras,
            start,
            pi,
        )
}

fn end_of(s: &LineSeg) -> (r: i32)
    requires
        end_fits(*s),
    ensures
        r == seg_end(*s),
{
    s.vertical_pos + s.line_height + s.line_spacing
}

/// Recomputes the vertical positions of the paragraphs from `start_para` to the end of the
/// section, each paragraph moved as a whole to begin where the previous one ends; heights
/// and spacings stay as they are.
pub fn recalculate_section_vpos(paragraphs: &mut [Paragraph], start_para: usize)
    requires
        section_fits(old(paragraphs)@, start_para as int),
    ensures
        final(paragraphs)@.len() == old(paragraphs)@.len(),
        forall|pi: int|
            0 <= pi < old(paragraphs)@.len() ==> {
                &&& (#[trigger] final(paragraphs)@[pi]).line_segs@ == spec_section_segs(
                    old(paragraphs)@,
                    start_para as int,
                    pi,
                )
                &&& final(paragraphs)@[pi].text@ == old(paragraphs)@[pi].text@
                &&& final(paragraphs)@[pi].char_offsets@ == old(paragraphs)@[pi].char_offsets@
                &&& final(paragraphs)@[pi].char_shapes@ == old(paragraphs)@[pi].char_shapes@
                &&& final(paragraphs)@[pi].para_shape_id == old(paragraphs)@[pi].para_shape_id
            },
{
    let ghost old_paras = paragraphs@;
    let ghost start = start_para as int;
    if paragraphs.len() == 0 || start_para >= paragraphs.len() {
        return ;
    }
    let mut next_vpos: i32 = if start_para > 0 {
        let prev = &paragraphs[start_para - 1];
        if prev.line_segs.len() > 0 {
            end_of(&prev.line_segs[prev.line_segs.len() - 1])
        } else {
            0
        }
    } else {
        if paragraphs[0].line_segs.len() > 0 {
            paragraphs[0].line_segs[0].vertical_pos
        } else {
            0
        }
    };
    let mut pi = start_para;
    while pi < paragraphs.len()
        invariant
            start_para <= pi <= paragraphs@.len(),
            start == start_para as int,
            paragraphs@.len() == old_paras.len(),
            section_fits(old_paras, start),
            next_vpos == next_before(old_paras, start, pi as int),
            forall|j: int|
                0 <= j < paragraphs@.len() ==> {
                    &&& (#[trigger] paragraphs@[j]).line_segs@ == if j < pi {
                        spec_section_segs(old_paras, start, j)
                    } else {
                        old_paras[j].line_segs@
                    }
                    &&& paragraphs@[j].text@ == old_paras[j].text@
                    &&& paragraphs@[j].char_offsets@ == old_paras[j].char_offsets@
                    &&& paragraphs@[j].char_shapes@ == old_paras[j].char_shapes@
                    &&& paragraphs@[j].para_shape_id == old_paras[j].para_shape_id
                },
        decreases paragraphs@.len() - pi,
    {
        proof {
            assert(paragraphs@[pi as int].line_segs@ == old_paras[pi as int].line_segs@);
        }
        let para = &mut paragraphs[pi];
        let n = para.line_segs.len();
        if n == 0 {
            pi = pi + 1;
            continue;
        }
        let ghost segs = old_paras[pi as int].line_segs@;
        proof {
            assert(para.line_segs@ == segs);
            assert(para_fits(old_paras, start, pi as int));
        }
        let current_start = para.line_segs[0].vertical_pos;
        let delta = next_vpos - current_start;
        if delta == 0 {
            proof {
                assert(shift_segs(segs, 0) =~= segs);
            }
            next_vpos = end_of(&para.line_segs[n - 1]);
            pi = pi + 1;
            continue;
        }
        let mut j: usize = 0;
        while j < n
            invariant
                n == para.line_segs@.len() == segs.len(),
                j <= n,
                pi < old_paras.len(),
                forall|k: int| 0 <= k < segs.len() ==> i32_range((#[trigger] segs[k]).vertical_pos + delta),
                forall|k: int| 0 <= k < j ==> para.line_segs@[k] == shift_segs(segs, delta as int)[k],
                forall|k: int| j <= k < n ==> para.line_segs@[k] == segs[k],
                para.text@ == old_paras[pi as int].text@,
                para.char_offsets@ == old_paras[pi as int].char_offsets@,
                para.char_shapes@ == old_paras[pi as int].char_shapes@,
                para.para_shape_id == old_paras[pi as int].para_shape_id,
            decreases n - j,
        {
            let mut seg = para.line_segs[j];
            proof {
                assert(seg == segs[j as int]);
                assert(i32_range(segs[j as int].vertical_pos + delta));
            }
            seg.vertical_pos = seg.vertical_pos + delta;
            para.line_segs.set(j, seg);
            j = j + 1;
        }
        proof {
            assert(para.line_segs@ =~= shift_segs(segs, delta as int));
        }
        next_vpos = end_of(&para.line_segs[n - 1]);
        pi = pi + 1;
    }
}


/// After the recalculation, a paragraph with lines that follows another paragraph with lines
/// (both at or after `start`) begins exactly where the other ends.
pub proof fn law_section_paragraphs_adjoin(paras: Seq<Paragraph>, start: int, pi: int)
    requires
        section_fits(paras, start),
        0 <= start <= pi,
        pi + 1 < paras.len(),
        paras[pi].line_segs@.len() > 0,
        paras[pi + 1].line_segs@.len() > 0,
    ensures
        spec_section_segs(paras, start, pi + 1)[0].vertical_pos == seg_end(
            spec_section_segs(paras, start, pi).last(),
        ),
{
    assert(para_fits(paras, start, pi));
    assert(para_fits(paras, start, pi + 1));
    let segs1 = paras[pi + 1].line_segs@;
    let d1 = next_before(paras, start, pi + 1) - segs1[0].vertical_pos;
    assert(i32_range(segs1[0].vertical_pos + d1));
}

proof fn lemma_next_skips_empty(paras: Seq<Paragraph>, start: int, pi: int, qi: int)
    requires
        0 <= start <= pi < qi,
        forall|r: int| pi < r < qi ==> (#[trigger] paras[r]).line_segs@.len() == 0,
    ensures
        next_before(paras, start, qi) == next_before(paras, start, pi + 1),
    decreases qi - pi,
{
    if qi > pi + 1 {
        assert(paras[qi - 1].line_segs@.len() == 0);
        lemma_next_skips_empty(paras, start, pi, qi - 1);
    }
}

/// Paragraphs without lines in between are passed over: after the recalculation, a paragraph
/// with lines begins exactly where the last paragraph with lines before it ends (both at or
/// after `start`).
pub proof fn law_section_skips_empty_paragraphs(paras: Seq<Paragraph>, start: int, pi: int, qi: int)
    requires
        section_fits(paras, start),
        0 <= start <= pi < qi < paras.len(),
        paras[pi].line_segs@.len() > 0,
        paras[qi].line_segs@.len() > 0,
        forall|r: int| pi < r < qi ==> (#[trigger] paras[r]).line_segs@.len() == 0,
    ensures
        spec_section_segs(paras, start, qi)[0].vertical_pos == seg_end(
            spec_section_segs(paras, start, pi).last(),
        ),
{
    lemma_next_skips_empty(paras, start, pi, qi);
    assert(para_fits(paras, start, pi));
    assert(para_fits(paras, start, qi));
    let segs = paras[qi].line_segs@;
    let d = next_before(paras, start, qi) - segs[0].vertical_pos;
    assert(i32_range(segs[0].vertical_pos + d));
}

/// The first paragraph recalculated begins where the paragraph before it ends.
pub proof fn law_section_starts_after_previous(paras: Seq<Paragraph>, start: int)
    requires
        section_fits(paras, start),
        0 < start < paras.len(),
        paras[start - 1].line_segs@.len() > 0,
        paras[start].line_segs@.len() > 0,
    ensures
        spec_section_segs(paras, start, start)[0].vertical_pos == seg_end(
            paras[start - 1].line_segs@.last(),
        ),
        spec_section_segs(paras, start, start - 1) == paras[start - 1].line_segs@,
{
    assert(para_fits(paras, start, start));
    let segs = paras[start].line_segs@;
    let d = next_before(paras, start, start) - segs[0].vertical_pos;
    assert(i32_range(segs[0].vertical_pos + d));
}

/// Moving a paragraph keeps the distances between its lines, and their heights and spacings.
pub proof fn law_section_keeps_line_shapes(paras: Seq<Paragraph>, start: int, pi: int, j: int)
    requires
        section_fits(paras, start),
        0 <= start,
        0 <= pi < paras.len(),
        0 <= j < paras[pi].line_segs@.len(),
    ensures
        ({
            let old_segs = paras[pi].line_segs@;
            let new_segs = spec_section_segs(paras, start, pi);
            &&& new_segs.len() == old_segs.len()
            &&& new_segs[j].vertical_pos - new_segs[0].vertical_pos == old_segs[j].vertical_pos
                - old_segs[0].vertical_pos
            &&& new_segs[j].line_height == old_segs[j].line_height
            &&& new_segs[j].line_spacing == old_segs[j].line_spacing
            &&& new_segs[j].text_start == old_segs[j].text_start
        }),
{
    if pi >= start {
        assert(para_fits(paras, start, pi));
        let segs = paras[pi].line_segs@;
        let d = next_before(paras, start, pi) - segs[0].vertical_pos;
        assert(i32_range(segs[0].vertical_pos + d));
        assert(i32_range(segs[j].vertical_pos + d));
    }
}

proof fn lemma_recalc_result_next(paras: Seq<Paragraph>, res: Seq<Paragraph>, start: int, pi: int)
    requires
        section_fits(paras, start),
        0 <= start < paras.len(),
        start <= pi <= paras.len(),
        res.len() == paras.len(),
        forall|q: int| 0 <= q < paras.len() ==> (#[trigger] res[q]).line_segs@ == spec_section_segs(paras, start, q),
    ensures
        next_before(res, start, pi) == next_before(paras, start, pi),
    decreases pi - start,
{
    if pi > start {
        lemma_recalc_result_next(paras, res, start, pi - 1);
        let q = pi - 1;
        let segs = paras[q].line_segs@;
        assert(res[q].line_segs@ == spec_section_segs(paras, start, q));
        if segs.len() > 0 {
            assert(para_fits(paras, start, q));
            let d = next_before(paras, start, q) - segs[0].vertical_pos;
            assert(i32_range(segs[0].vertical_pos + d));
            assert(i32_range(segs[segs.len() - 1].vertical_pos + d));
        }
    } else {
        if start > 0 {
            assert(res[start - 1].line_segs@ == spec_section_segs(paras, start, start - 1));
        } else {
            assert(res[0].line_segs@ == spec_section_segs(paras, start, 0));
            let segs = paras[0].line_segs@;
            if segs.len() > 0 {
                assert(para_fits(paras, start, 0));
            }
        }
    }
}

/// Recalculating a section that was just recalculated from the same paragraph changes
/// nothing.
pub proof fn law_section_recalc_idempotent(paras: Seq<Paragraph>, res: Seq<Paragraph>, start: int, pi: int)
    requires
        section_fits(paras, start),
        0 <= start < paras.len(),
        0 <= pi < paras.len(),
        res.len() == paras.len(),
        forall|q: int| 0 <= q < paras.len() ==> (#[trigger] res[q]).line_segs@ == spec_section_segs(paras, start, q),
    ensures
        spec_section_segs(res, start, pi) == res[pi].line_segs@,
{
    assert(res[pi].line_segs@ == spec_section_segs(paras, start, pi));
    let segs = paras[pi].line_segs@;
    if pi >= start && segs.len() > 0 {
        lemma_recalc_result_next(paras, res, start, pi);
        assert(para_fits(paras, start, pi));
        let d = next_before(paras, start, pi) - segs[0].vertical_pos;
        assert(i32_range(segs[0].vertical_pos + d));
        let rs = res[pi].line_segs@;
        assert(shift_segs(rs, 0) =~= rs);
    }
}

} // verus!
