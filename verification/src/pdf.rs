//! SVG pages to PDF documents: font fallbacks written into the SVG text, the outcome of the
//! parsing and conversion stages with their failure messages, and the order in which a batch
//! of pages is converted.
use vstd::prelude::*;

verus! {

broadcast use vstd::string::group_string_axioms;

/// `usvg::Tree`: a parsed SVG render tree; carried through unopened.
#[verifier::external_type_specification]
#[verifier::external_body]
pub struct ExUsvgTree(usvg::Tree);

/// The characters of `s`.
pub fn chars_of(s: &str) -> (v: Vec<char>)
    ensures
        v@ == s@,
{
    let mut v: Vec<char> = Vec::new();
    for c in it: s.chars()
        invariant
            v@ == it.seq().take(it.index() as int),
    {
        v.push(c);
    }
    v
}

/// `String::from_iter` over characters: the string holds exactly the given characters, in
/// order.
#[verifier::external_body]
fn string_from_chars(chars: &Vec<char>) -> (s: String)
    ensures
        s@ == chars@,
{
    String::from_iter(chars.iter())
}

/// `pat` occurs in `s` at position `i`.
pub open spec fn occurs_at(s: Seq<char>, i: int, pat: Seq<char>) -> bool {
    0 <= i && i + pat.len() <= s.len() && s.subrange(i, i + pat.len()) == pat
}

/// `s[i..]` with each occurrence of `pat`, taken from left to right without overlaps,
/// replaced by `rep`.
pub open spec fn replace_from(s: Seq<char>, pat: Seq<char>, rep: Seq<char>, i: int) -> Seq<char>
    decreases s.len() - i,
{
    if i < 0 || i >= s.len() {
        seq![]
    } else if pat.len() > 0 && occurs_at(s, i, pat) {
        rep + replace_from(s, pat, rep, i + pat.len())
    } else {
        seq![s[i]] + replace_from(s, pat, rep, i + 1)
    }
}

/// `s` with every occurrence of a non-empty `pat` replaced by `rep`, as `str::replace` does
/// for a non-empty pattern.
pub open spec fn spec_replace(s: Seq<char>, pat: Seq<char>, rep: Seq<char>) -> Seq<char> {
    replace_from(s, pat, rep, 0)
}

fn occurs_at_exec(s: &Vec<char>, i: usize, pat: &Vec<char>) -> (r: bool)
    requires
        i <= s@.len(),
    ensures
        r == occurs_at(s@, i as int, pat@),
{
    if pat.len() > s.len() - i {
        return false;
    }
    let n = s.len();
    let mut k: usize = 0;
    while k < pat.len()
        invariant
            n == s@.len(),
            i + pat@.len() <= s@.len(),
            k <= pat@.len(),
            forall|j: int| 0 <= j < k ==> s@[i + j] == pat@[j],
        decreases pat@.len() - k,
    {
        if s[i + k] != pat[k] {
            assert(s@.subrange(i as int, i + pat@.len())[k as int] != pat@[k as int]);
            return false;
        }
        k = k + 1;
    }
    assert(s@.subrange(i as int, i + pat@.len()) =~= pat@);
    true
}

/// `s` with every occurrence of `pat` replaced by `rep`, from left to right.
pub fn replace_all(s: &Vec<char>, pat: &Vec<char>, rep: &Vec<char>) -> (r: Vec<char>)
    requires
        pat@.len() > 0,
    ensures
        r@ == spec_replace(s@, pat@, rep@),
{
    let mut out: Vec<char> = Vec::new();
    let mut i: usize = 0;
    while i < s.len()
        invariant
            i <= s@.len(),
            pat@.len() > 0,
            out@ + replace_from(s@, pat@, rep@, i as int) == spec_replace(s@, pat@, rep@),
        decreases s@.len() - i,
    {
        let ghost before = out@;
        if occurs_at_exec(s, i, pat) {
            let mut j: usize = 0;
            while j < rep.len()
                invariant
                    j <= rep@.len(),
                    out@ == before + rep@.take(j as int),
                decreases rep@.len() - j,
            {
                out.push(rep[j]);
                j = j + 1;
                assert(rep@.take(j as int) =~= rep@.take(j - 1).push(rep@[j - 1]));
            }
            assert(rep@.take(rep@.len() as int) =~= rep@);
            assert(before + replace_from(s@, pat@, rep@, i as int) == before + (rep@ + replace_from(
                s@,
                pat@,
                rep@,
                i + pat@.len(),
            )));
            assert(out@ + replace_from(s@, pat@, rep@, i + pat@.len()) =~= before + (rep@
                + replace_from(s@, pat@, rep@, i + pat@.len())));
            i = i + pat.len();
        } else {
            out.push(s[i]);
            assert(out@ + replace_from(s@, pat@, rep@, i + 1) =~= before + (seq![s@[i as int]]
                + replace_from(s@, pat@, rep@, i + 1)));
            i = i + 1;
        }
    }
    assert(out@ + seq![] =~= out@);
    out
}

/// A text without `pat` comes back unchanged from replacing `pat`.
pub proof fn law_replace_without_occurrence(s: Seq<char>, pat: Seq<char>, rep: Seq<char>)
    requires
        forall|i: int| 0 <= i < s.len() ==> !occurs_at(s, i, pat),
    ensures
        spec_replace(s, pat, rep) == s,
{
    lemma_replace_without_occurrence(s, pat, rep, 0);
    assert(s.subrange(0, s.len() as int) =~= s);
}

proof fn lemma_replace_without_occurrence(s: Seq<char>, pat: Seq<char>, rep: Seq<char>, i: int)
    requires
        0 <= i <= s.len(),
        forall|j: int| 0 <= j < s.len() ==> !occurs_at(s, j, pat),
    ensures
        replace_from(s, pat, rep, i) == s.subrange(i, s.len() as int),
    decreases s.len() - i,
{
    if i < s.len() {
        lemma_replace_without_occurrence(s, pat, rep, i + 1);
        assert(seq![s[i]] + s.subrange(i + 1, s.len() as int) =~= s.subrange(i, s.len() as int));
    } else {
        assert(s.subrange(i, s.len() as int) =~= seq![]);
    }
}

/// The serif font name that gets a fallback list.
pub open spec fn serif_font_attr() -> Seq<char> {
    "font-family=\"휴먼명조\""@
}

pub open spec fn serif_fallback_attr() -> Seq<char> {
    "font-family=\"휴먼명조, 바탕, serif\""@
}

/// The sans-serif font name that gets a fallback list.
pub open spec fn sans_font_attr() -> Seq<char> {
    "font-family=\"HCI Poppy\""@
}

pub open spec fn sans_fallback_attr() -> Seq<char> {
    "font-family=\"HCI Poppy, 맑은 고딕, sans-serif\""@
}

/// The SVG text with fallback fonts added to the Hangul font names that PDF viewers lack.
pub open spec fn spec_add_font_fallbacks(svg: Seq<char>) -> Seq<char> {
    spec_replace(
        spec_replace(svg, serif_font_attr(), serif_fallback_attr()),
        sans_font_attr(),
        sans_fallback_attr(),
    )
}

/// Adds fallbacks to the Hangul font names of an SVG: "휴먼명조" falls back to "바탕" and
/// serif, "HCI Poppy" to "맑은 고딕" and sans-serif.
pub fn add_font_fallbacks(svg: &str) -> (r: String)
    ensures
        r@ == spec_add_font_fallbacks(svg@),
{
    let text = chars_of(svg);
    let serif = chars_of("font-family=\"휴먼명조\"");
    let serif_fallback = chars_of("font-family=\"휴먼명조, 바탕, serif\"");
    let sans = chars_of("font-family=\"HCI Poppy\"");
    let sans_fallback = chars_of("font-family=\"HCI Poppy, 맑은 고딕, sans-serif\"");
    proof {
        reveal_strlit("font-family=\"휴먼명조\"");
        reveal_strlit("font-family=\"HCI Poppy\"");
    }
    let step = replace_all(&text, &serif, &serif_fallback);
    let done = replace_all(&step, &sans, &sans_fallback);
    string_from_chars(&done)
}

/// `a` and `b` differ at a position where both have a character.
spec fn clash(a: Seq<char>, b: Seq<char>) -> bool {
    exists|k: int| 0 <= k < a.len() && k < b.len() && a[k] != b[k]
}

spec fn clash_at_tail(q: Seq<char>, rep: Seq<char>, o: int) -> bool {
    clash(q, rep.subrange(o, rep.len() as int))
}

spec fn clash_at_head(q: Seq<char>, rep: Seq<char>, d: int) -> bool {
    clash(q.subrange(d, q.len() as int), rep)
}

/// Writing `rep` into a text makes no occurrence of `q` that begins inside `rep`, nor one
/// that begins before `rep` and reaches into it.
spec fn rep_keeps_out(q: Seq<char>, rep: Seq<char>) -> bool {
    &&& q.len() > 0
    &&& forall|o: int| 0 <= o < rep.len() ==> #[trigger] clash_at_tail(q, rep, o)
    &&& forall|d: int| 0 < d < q.len() ==> #[trigger] clash_at_head(q, rep, d)
}

proof fn lemma_copy_run(s: Seq<char>, pat: Seq<char>, rep: Seq<char>, i: int, k: int)
    requires
        0 <= i <= k <= s.len(),
        pat.len() > 0,
        forall|j: int| i <= j < k ==> !occurs_at(s, j, pat),
    ensures
        replace_from(s, pat, rep, i) == s.subrange(i, k) + replace_from(s, pat, rep, k),
    decreases k - i,
{
    if i < k {
        lemma_copy_run(s, pat, rep, i + 1, k);
        assert(!occurs_at(s, i, pat));
        assert(replace_from(s, pat, rep, i) == seq![s[i]] + replace_from(s, pat, rep, i + 1));
        assert(seq![s[i]] + s.subrange(i + 1, k) =~= s.subrange(i, k));
        assert(seq![s[i]] + (s.subrange(i + 1, k) + replace_from(s, pat, rep, k)) =~= (seq![s[i]]
            + s.subrange(i + 1, k)) + replace_from(s, pat, rep, k));
    } else {
        assert(s.subrange(i, k) + replace_from(s, pat, rep, k) =~= replace_from(s, pat, rep, k));
    }
}

proof fn lemma_copy_start(s: Seq<char>, pat: Seq<char>, rep: Seq<char>, q: Seq<char>, i: int, d: int)
    requires
        pat.len() > 0,
        0 <= i < s.len(),
        1 <= d <= q.len(),
        forall|j: int| i <= j < i + d && j < s.len() ==> !occurs_at(s, j, pat),
        !occurs_at(s, i, q),
        rep_keeps_out(q, rep),
    ensures
        !occurs_at(replace_from(s, pat, rep, i), 0, q),
    decreases q.len() - d,
{
    let out = replace_from(s, pat, rep, i);
    if i + d >= s.len() {
        lemma_copy_run(s, pat, rep, i, s.len() as int);
        assert(out =~= s.subrange(i, s.len() as int));
        if occurs_at(out, 0, q) {
            assert(s.subrange(i, i + q.len()) =~= out.subrange(0, q.len() as int));
        }
    } else if d == q.len() {
        lemma_copy_run(s, pat, rep, i, i + d);
        if occurs_at(out, 0, q) {
            assert(s.subrange(i, i + q.len()) =~= out.subrange(0, q.len() as int));
        }
    } else {
        let k = i + d;
        if occurs_at(s, k, pat) {
            lemma_copy_run(s, pat, rep, i, k);
            let rest = replace_from(s, pat, rep, k + pat.len());
            assert(replace_from(s, pat, rep, k) == rep + rest);
            assert(clash_at_head(q, rep, d));
            if occurs_at(out, 0, q) {
                let qd = q.subrange(d, q.len() as int);
                let m = choose|m: int| 0 <= m < qd.len() && m < rep.len() && qd[m] != rep[m];
                assert(out[d + m] == rep[m]);
                assert(out.subrange(0, q.len() as int)[d + m] == q[d + m]);
            }
        } else {
            lemma_copy_start(s, pat, rep, q, i, d + 1);
        }
    }
}

proof fn lemma_no_occurrence_after(s: Seq<char>, pat: Seq<char>, rep: Seq<char>, q: Seq<char>, i: int)
    requires
        pat.len() > 0,
        0 <= i <= s.len(),
        rep_keeps_out(q, rep),
        forall|j: int| 0 <= j < s.len() && !occurs_at(s, j, pat) ==> !occurs_at(s, j, q),
    ensures
        forall|p: int| !#[trigger] occurs_at(replace_from(s, pat, rep, i), p, q),
    decreases s.len() - i,
{
    let out = replace_from(s, pat, rep, i);
    if i < s.len() {
        if occurs_at(s, i, pat) {
            let n = i + pat.len();
            lemma_no_occurrence_after(s, pat, rep, q, n);
            let rest = replace_from(s, pat, rep, n);
            assert(out == rep + rest);
            assert forall|p: int| !#[trigger] occurs_at(out, p, q) by {
                if occurs_at(out, p, q) {
                    if p >= rep.len() {
                        assert(rest.subrange(p - rep.len(), p - rep.len() + q.len()) =~= out.subrange(
                            p,
                            p + q.len(),
                        ));
                        assert(occurs_at(rest, p - rep.len(), q));
                    } else {
                        assert(clash_at_tail(q, rep, p));
                        let tail = rep.subrange(p, rep.len() as int);
                        let m = choose|m: int| 0 <= m < q.len() && m < tail.len() && q[m] != tail[m];
                        assert(out[p + m] == rep[p + m]);
                        assert(out.subrange(p, p + q.len())[m] == out[p + m]);
                    }
                }
            }
        } else {
            lemma_no_occurrence_after(s, pat, rep, q, i + 1);
            let rest = replace_from(s, pat, rep, i + 1);
            assert(out == seq![s[i]] + rest);
            lemma_copy_start(s, pat, rep, q, i, 1);
            assert forall|p: int| !#[trigger] occurs_at(out, p, q) by {
                if occurs_at(out, p, q) && p >= 1 {
                    assert(rest.subrange(p - 1, p - 1 + q.len()) =~= out.subrange(p, p + q.len()));
                    assert(occurs_at(rest, p - 1, q));
                }
            }
        }
    } else {
        assert(out =~= Seq::<char>::empty());
    }
}

/// A font attribute `q` and its fallback `rep` share the shape that keeps `q` out of any text
/// that `rep` is written into: both begin with `font-family`, whose only other `f` is in
/// "family", `rep` ends with `f"` and has no other `f`, and they part at `k0`.
proof fn lemma_keeps_out(q: Seq<char>, rep: Seq<char>, k0: int)
    requires
        q.len() > 6,
        rep.len() > 6,
        q[0] == 'f',
        q[1] == 'o',
        q[6] == 'a',
        rep[0] == 'f',
        rep[1] == 'o',
        rep[6] == 'a',
        rep[rep.len() - 1] == '"',
        forall|d: int| 0 < d < q.len() && d != 5 ==> q[d] != 'f',
        forall|o: int| 0 <= o < rep.len() && o != 0 && o != 5 && o != rep.len() - 2 ==> rep[o] != 'f',
        0 <= k0 < q.len(),
        k0 < rep.len(),
        q[k0] != rep[k0],
    ensures
        rep_keeps_out(q, rep),
{
    assert forall|o: int| 0 <= o < rep.len() implies #[trigger] clash_at_tail(q, rep, o) by {
        let tail = rep.subrange(o, rep.len() as int);
        if o == 0 {
            assert(q[k0] != tail[k0]);
        } else if o == 5 || o == rep.len() - 2 {
            assert(q[1] != tail[1]);
        } else {
            assert(q[0] != tail[0]);
        }
    }
    assert forall|d: int| 0 < d < q.len() implies #[trigger] clash_at_head(q, rep, d) by {
        let head = q.subrange(d, q.len() as int);
        if d == 5 {
            assert(head[1] != rep[1]);
        } else {
            assert(head[0] != rep[0]);
        }
    }
}

/// Adding the fallbacks to an SVG text that already has them changes nothing: adding them
/// twice gives what adding them once gives.
pub proof fn law_font_fallbacks_idempotent(svg: Seq<char>)
    ensures
        spec_add_font_fallbacks(spec_add_font_fallbacks(svg)) == spec_add_font_fallbacks(svg),
{
    reveal_strlit("font-family=\"휴먼명조\"");
    reveal_strlit("font-family=\"휴먼명조, 바탕, serif\"");
    reveal_strlit("font-family=\"HCI Poppy\"");
    reveal_strlit("font-family=\"HCI Poppy, 맑은 고딕, sans-serif\"");
    let p1 = serif_font_attr();
    let r1 = serif_fallback_attr();
    let p2 = sans_font_attr();
    let r2 = sans_fallback_attr();
    lemma_keeps_out(p1, r1, 17);
    lemma_keeps_out(p1, r2, 13);
    lemma_keeps_out(p2, r2, 22);
    let u = spec_replace(svg, p1, r1);
    lemma_no_occurrence_after(svg, p1, r1, p1, 0);
    let t = spec_replace(u, p2, r2);
    lemma_no_occurrence_after(u, p2, r2, p1, 0);
    lemma_no_occurrence_after(u, p2, r2, p2, 0);
    assert(forall|i: int| 0 <= i < t.len() ==> !occurs_at(t, i, p1));
    assert(forall|i: int| 0 <= i < t.len() ==> !occurs_at(t, i, p2));
    law_replace_without_occurrence(t, p1, r1);
    law_replace_without_occurrence(t, p2, r2);
}

/// Text of an SVG parse failure with detail `detail`.
pub open spec fn svg_parse_failure(detail: Seq<char>) -> Seq<char> {
    "SVG 파싱 실패: "@ + detail
}

/// Text of a PDF conversion failure with detail `detail`.
pub open spec fn pdf_conversion_failure(detail: Seq<char>) -> Seq<char> {
    "PDF 변환 실패: "@ + detail
}

/// The message for an SVG that could not be parsed.
pub fn svg_parse_failure_message(detail: &str) -> (r: String)
    ensures
        r@ == svg_parse_failure(detail@),
{
    let s = String::from_str("SVG 파싱 실패: ");
    s.concat(detail)
}

/// The message for a tree that could not be converted to PDF.
pub fn pdf_conversion_failure_message(detail: &str) -> (r: String)
    ensures
        r@ == pdf_conversion_failure(detail@),
{
    let s = String::from_str("PDF 변환 실패: ");
    s.concat(detail)
}

/// The parsing stage of converting one SVG page: the outcome of parsing the page's text
/// (after `add_font_fallbacks`), either the tree or the text of the parse error. A tree goes
/// on to the conversion as it is; an error is reported as a parse failure with that text.
pub fn check_svg_parse(parsed: Result<usvg::Tree, String>) -> (r: Result<usvg::Tree, String>)
    ensures
        parsed matches Ok(tree) ==> (r matches Ok(t) && t == tree),
        parsed matches Err(d) ==> (r matches Err(m) && m@ == svg_parse_failure(d@)),
{
    match parsed {
        Ok(tree) => Ok(tree),
        Err(detail) => Err(svg_parse_failure_message(detail.as_str())),
    }
}

/// The last stage of converting one SVG page: the outcome of the conversion of its tree,
/// either the document or the text of the conversion error. A document is the page's result
/// as it is; an error is reported as a conversion failure with that text.
pub fn finish_svg_page(converted: Result<Vec<u8>, String>) -> (r: Result<Vec<u8>, String>)
    ensures
        converted matches Ok(pdf) ==> (r matches Ok(p) && p@ == pdf@),
        converted matches Err(d) ==> (r matches Err(m) && m@ == pdf_conversion_failure(d@)),
{
    match converted {
        Ok(pdf) => Ok(pdf),
        Err(detail) => Err(pdf_conversion_failure_message(detail.as_str())),
    }
}

/// A batch of SVG pages being converted to one PDF document each, in order.
pub enum PdfBatch {
    /// Page number `pdfs.len()` is converted next; `pdfs` holds the documents of the pages
    /// before it.
    Converting(Vec<Vec<u8>>),
    /// The batch is over: the documents of all pages in order, or the first failure.
    Finished(Result<Vec<Vec<u8>>, String>),
}

/// A batch as values: the documents of the pages done so far while converting, or how it
/// ended.
pub enum BatchState {
    Converting(Seq<Vec<u8>>),
    Finished(Result<Seq<Vec<u8>>, String>),
}

impl PdfBatch {
    /// The batch as values.
    pub open spec fn state(&self) -> BatchState {
        match self {
            PdfBatch::Converting(pdfs) => BatchState::Converting(pdfs@),
            PdfBatch::Finished(Ok(pdfs)) => BatchState::Finished(Ok(pdfs@)),
            PdfBatch::Finished(Err(m)) => BatchState::Finished(Err(*m)),
        }
    }
}

/// The start of a batch of `n` pages: over at once with no documents when there are none;
/// otherwise converting, with no documents yet.
pub open spec fn batch_start(n: int) -> BatchState {
    if n == 0 {
        BatchState::Finished(Ok(seq![]))
    } else {
        BatchState::Converting(seq![])
    }
}

/// One step of a batch of `n` pages with documents `done`, given the outcome of the next
/// page: a failure ends the batch with it; a document is appended, and the batch ends after
/// the last page.
pub open spec fn batch_step(done: Seq<Vec<u8>>, n: int, outcome: Result<Vec<u8>, String>) -> BatchState {
    match outcome {
        Err(m) => BatchState::Finished(Err(m)),
        Ok(pdf) => if done.len() + 1 == n {
            BatchState::Finished(Ok(done.push(pdf)))
        } else {
            BatchState::Converting(done.push(pdf))
        },
    }
}

/// Where a batch whose pages have outcomes `outs` ends, stepping from documents `done` on.
pub open spec fn batch_run_from(done: Seq<Vec<u8>>, outs: Seq<Result<Vec<u8>, String>>) -> BatchState
    decreases outs.len() - done.len(),
{
    if done.len() >= outs.len() {
        BatchState::Converting(done)
    } else {
        match batch_step(done, outs.len() as int, outs[done.len() as int]) {
            BatchState::Converting(next) => if done.len() < next.len() <= outs.len() {
                batch_run_from(next, outs)
            } else {
                BatchState::Converting(next)
            },
            ended => ended,
        }
    }
}

/// Where a batch whose pages have outcomes `outs`, in order, ends.
pub open spec fn batch_run(outs: Seq<Result<Vec<u8>, String>>) -> BatchState {
    match batch_start(outs.len() as int) {
        BatchState::Converting(done) => batch_run_from(done, outs),
        ended => ended,
    }
}

/// The documents of the pages of `outs`, all of which succeeded.
pub open spec fn all_documents(outs: Seq<Result<Vec<u8>, String>>) -> Seq<Vec<u8>> {
    Seq::new(outs.len(), |i: int| outs[i]->Ok_0)
}

/// `done` holds the documents of the first pages of `outs`, all of which succeeded.
spec fn done_so_far(done: Seq<Vec<u8>>, outs: Seq<Result<Vec<u8>, String>>) -> bool {
    forall|i: int| 0 <= i < done.len() ==> (#[trigger] outs[i]) is Ok && done[i] == outs[i]->Ok_0
}

proof fn lemma_batch_run_from(done: Seq<Vec<u8>>, outs: Seq<Result<Vec<u8>, String>>)
    requires
        done.len() < outs.len(),
        done_so_far(done, outs),
    ensures
        (forall|i: int| done.len() <= i < outs.len() ==> outs[i] is Ok) ==> batch_run_from(done, outs)
            == BatchState::Finished(Ok(all_documents(outs))),
        forall|f: int|
            done.len() <= f < outs.len() && outs[f] is Err && (forall|i: int|
                done.len() <= i < f ==> outs[i] is Ok) ==> batch_run_from(done, outs)
                == BatchState::Finished(Err(outs[f]->Err_0)),
    decreases outs.len() - done.len(),
{
    let k = done.len() as int;
    match outs[k] {
        Err(m) => {},
        Ok(pdf) => {
            let next = done.push(pdf);
            if k + 1 == outs.len() {
                assert(next =~= all_documents(outs));
            } else {
                assert forall|i: int| 0 <= i < next.len() implies (#[trigger] outs[i]) is Ok
                    && next[i] == outs[i]->Ok_0 by {
                    if i < k {
                        assert(next[i] == done[i]);
                    } else {
                        assert(next[i] == pdf);
                    }
                }
                lemma_batch_run_from(next, outs);
            }
        },
    }
}

/// A batch converts its pages in order: it ends with one document per page, in page order,
/// when every page succeeds, and with the failure of the first page that fails otherwise; a
/// batch of no pages ends with no documents.
pub proof fn law_batch_documents_in_page_order(outs: Seq<Result<Vec<u8>, String>>)
    ensures
        (forall|i: int| 0 <= i < outs.len() ==> outs[i] is Ok) ==> batch_run(outs)
            == BatchState::Finished(Ok(all_documents(outs))),
        forall|f: int|
            0 <= f < outs.len() && outs[f] is Err && (forall|i: int| 0 <= i < f ==> outs[i] is Ok)
                ==> batch_run(outs) == BatchState::Finished(Err(outs[f]->Err_0)),
{
    if outs.len() == 0 {
        assert(all_documents(outs) =~= seq![]);
    } else {
        lemma_batch_run_from(seq![], outs);
    }
}

/// The start of a batch of `page_count` pages: with no pages it is over at once, with no
/// documents and no failure; otherwise the first page is converted first.
pub fn svgs_to_pdfs_start(page_count: usize) -> (b: PdfBatch)
    ensures
        b.state() == batch_start(page_count as int),
{
    if page_count == 0 {
        PdfBatch::Finished(Ok(Vec::new()))
    } else {
        PdfBatch::Converting(Vec::new())
    }
}

/// One step of a batch of `page_count` pages: `outcome` is the result of converting page
/// number `pdfs.len()`. A failure ends the batch with that failure; a document is appended,
/// and the batch either goes on with the next page or, after the last one, ends with all the
/// documents.
pub fn svgs_to_pdfs_step(pdfs: Vec<Vec<u8>>, page_count: usize, outcome: Result<Vec<u8>, String>) -> (b: PdfBatch)
    requires
        pdfs@.len() < page_count,
    ensures
        b.state() == batch_step(pdfs@, page_count as int, outcome),
{
    match outcome {
        Err(m) => PdfBatch::Finished(Err(m)),
        Ok(pdf) => {
            let mut pdfs = pdfs;
            pdfs.push(pdf);
            if pdfs.len() == page_count {
                PdfBatch::Finished(Ok(pdfs))
            } else {
                PdfBatch::Converting(pdfs)
            }
        },
    }
}

/// `fontdb::Database` (through usvg): the fonts that text is drawn with, and the families
/// that the generic family names stand for.
#[verifier::external_type_specification]
#[verifier::external_body]
pub struct ExFontDatabase(usvg::fontdb::Database);

/// Generic font family slot: serif.
pub const SERIF_FAMILY: u8 = 0;
/// Generic font family slot: sans-serif.
pub const SANS_SERIF_FAMILY: u8 = 1;
/// Generic font family slot: monospace.
pub const MONOSPACE_FAMILY: u8 = 2;

/// The family name that generic family `slot` stands for in a font database.
pub uninterp spec fn generic_family(db: usvg::fontdb::Database, slot: u8) -> Seq<char>;

/// `fontdb::Database::set_serif_family`: the serif family becomes `family`; the other
/// generic families stay.
#[verifier::external_body]
fn set_serif_family(db: &mut usvg::fontdb::Database, family: &str)
    ensures
        generic_family(*final(db), SERIF_FAMILY) == family@,
        forall|s: u8| s != SERIF_FAMILY ==> generic_family(*final(db), s) == generic_family(*old(db), s),
{
    db.set_serif_family(family);
}

/// `fontdb::Database::set_sans_serif_family`: the sans-serif family becomes `family`; the
/// other generic families stay.
#[verifier::external_body]
fn set_sans_serif_family(db: &mut usvg::fontdb::Database, family: &str)
    ensures
        generic_family(*final(db), SANS_SERIF_FAMILY) == family@,
        forall|s: u8| s != SANS_SERIF_FAMILY ==> generic_family(*final(db), s) == generic_family(*old(db), s),
{
    db.set_sans_serif_family(family);
}

/// `fontdb::Database::set_monospace_family`: the monospace family becomes `family`; the
/// other generic families stay.
#[verifier::external_body]
fn set_monospace_family(db: &mut usvg::fontdb::Database, family: &str)
    ensures
        generic_family(*final(db), MONOSPACE_FAMILY) == family@,
        forall|s: u8| s != MONOSPACE_FAMILY ==> generic_family(*final(db), s) == generic_family(*old(db), s),
{
    db.set_monospace_family(family);
}

/// Makes Hangul fonts the generic families of a font database: serif "바탕", sans-serif
/// "맑은 고딕", monospace "D2Coding".
pub fn set_hangul_generic_families(db: &mut usvg::fontdb::Database)
    ensures
        generic_family(*final(db), SERIF_FAMILY) == "바탕"@,
        generic_family(*final(db), SANS_SERIF_FAMILY) == "맑은 고딕"@,
        generic_family(*final(db), MONOSPACE_FAMILY) == "D2Coding"@,
{
    set_serif_family(db, "바탕");
    set_sans_serif_family(db, "맑은 고딕");
    set_monospace_family(db, "D2Coding");
}

} // verus!
