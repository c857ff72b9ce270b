//! The prompt: the instruction, the edges among the prompt's nodes, one block
//! per node, and the question, shrunk until the chat model's tokenizer says
//! it fits in the context minus the reserved answer tokens.

use vstd::prelude::*;

use crate::ask::bundle::{LoadedBundle, node_spec};
use crate::ask::cite::passage_for;
use crate::ask::error::AskError;
use crate::ask::expand::ContextNodes;
use crate::ask::model::ChatModel;
use crate::graph::attrs::{attrs_json, canonical_attrs, strings_view};
use crate::graph::model::{EdgeRecord, Passage, copy_opt, opt_view};
use crate::text::{append_str, chars_of, copy_str, str_eq, string_of, sub_chars};

verus! {

/// What the chat model is told before the passages.
pub const INSTRUCTION: &'static str = "You answer questions about Warhammer 40,000 using only the passages below.\nWhen you use a passage, cite it as [node_id]. If that passage has a link, write the link on the same line as the citation.\nIf the passages do not contain the answer, say that they do not.";

/// One node's block in the prompt, as values.
pub struct PieceView {
    pub node_id: Seq<char>,
    pub title: Seq<char>,
    pub link: Option<Seq<char>>,
    pub text: Seq<char>,
}

/// One node's block in the prompt.
pub struct Piece {
    pub node_id: String,
    pub title: String,
    pub link: Option<String>,
    pub text: String,
}

/// The values of a piece.
pub open spec fn piece_view(p: Piece) -> PieceView {
    PieceView { node_id: p.node_id@, title: p.title@, link: opt_view(p.link), text: p.text@ }
}

/// The values of a list of pieces.
pub open spec fn piece_views(v: Seq<Piece>) -> Seq<PieceView> {
    v.map_values(|p: Piece| piece_view(p))
}

/// The block of `id`: from its passage, else from its node, else empty.
pub open spec fn piece_spec(b: LoadedBundle, id: Seq<char>) -> PieceView {
    match passage_for(b.passages@, id, 0) {
        Some(p) => PieceView { node_id: id, title: p.title@, link: opt_view(p.wahapedia_link), text: p.text@ },
        None => match node_spec(b, id) {
            Some(n) => PieceView { node_id: id, title: n.label@, link: opt_view(n.source_url), text: n.text@ },
            None => PieceView { node_id: id, title: Seq::empty(), link: None, text: Seq::empty() },
        },
    }
}

/// The label the prompt shows for `id`: its node's label, else the id.
pub open spec fn label_spec(b: LoadedBundle, id: Seq<char>) -> Seq<char> {
    match node_spec(b, id) {
        Some(n) => n.label@,
        None => id,
    }
}

/// `{from} -{kind}-> {to}`, and the attributes' JSON unless it is `{}`.
pub open spec fn edge_line_spec(b: LoadedBundle, e: EdgeRecord) -> Seq<char> {
    let base = label_spec(b, e.from@) + " -"@ + e.kind@ + "-> "@ + label_spec(b, e.to@);
    let a = attrs_json(e.attrs@);
    if a == "{}"@ {
        base
    } else {
        base + " "@ + a
    }
}

/// The lines of the first `n` edges whose ends are both among `ids`.
pub open spec fn edge_lines_upto(b: LoadedBundle, ids: Seq<Seq<char>>, n: int) -> Seq<char>
    decreases n,
{
    if n <= 0 || n > b.edges@.len() {
        Seq::empty()
    } else {
        let e = b.edges@[n - 1];
        if ids.contains(e.from@) && ids.contains(e.to@) {
            edge_lines_upto(b, ids, n - 1) + edge_line_spec(b, e) + "\n"@
        } else {
            edge_lines_upto(b, ids, n - 1)
        }
    }
}

/// A node's block: title, id, link (or `none`), then its text ending in a
/// newline, between `---` lines.
pub open spec fn piece_block(p: PieceView) -> Seq<char> {
    "---\n"@ + "title: "@ + p.title + "\nnode_id: "@ + p.node_id + "\nlink: "@ + (match p.link {
        Some(l) => l,
        None => "none"@,
    }) + "\n"@ + p.text + (if p.text.len() > 0 && p.text.last() == '\n' {
        Seq::empty()
    } else {
        "\n"@
    }) + "---\n"@
}

/// The blocks of the first `n` pieces.
pub open spec fn blocks_upto(pieces: Seq<PieceView>, n: int) -> Seq<char>
    decreases n,
{
    if n <= 0 || n > pieces.len() {
        Seq::empty()
    } else {
        blocks_upto(pieces, n - 1) + piece_block(pieces[n - 1])
    }
}

/// The prompt for `pieces`: instruction, edges among them, their blocks (or
/// a note that nothing matched), and the question.
pub open spec fn render_spec(pieces: Seq<PieceView>, b: LoadedBundle, question: Seq<char>, no_match: bool) -> Seq<char> {
    INSTRUCTION@ + "\n\nEdges:\n"@ + edge_lines_upto(
        b,
        pieces.map_values(|p: PieceView| p.node_id),
        b.edges@.len() as int,
    ) + "\nPassages:\n"@ + (if no_match || pieces.len() == 0 {
        "The bundle had no matching passage.\n"@
    } else {
        blocks_upto(pieces, pieces.len() as int)
    }) + "\nQuestion: "@ + question + "\n"@
}

/// The blocks of the context nodes, in order.
pub open spec fn context_pieces(b: LoadedBundle, nodes: Seq<Seq<char>>) -> Seq<PieceView> {
    nodes.map_values(|id: Seq<char>| piece_spec(b, id))
}

/// `ps` are the blocks of a prompt for `pieces` with `sc` seeds: the first
/// blocks in order, at least the seeds', each with its id, title and link and
/// a prefix of its text; texts are shortened only when nothing beyond the
/// seeds is kept.
pub open spec fn is_candidate(ps: Seq<PieceView>, pieces: Seq<PieceView>, sc: int) -> bool {
    &&& sc <= ps.len() <= pieces.len()
    &&& forall|i: int|
        0 <= i < ps.len() ==> (#[trigger] ps[i]).node_id == pieces[i].node_id && ps[i].title == pieces[i].title
            && ps[i].link == pieces[i].link && ps[i].text.is_prefix_of(pieces[i].text)
    &&& ps.len() > sc ==> forall|i: int| 0 <= i < ps.len() ==> (#[trigger] ps[i]).text == pieces[i].text
}

/// Every prompt `build` can return starts with the instruction and ends with
/// the question, and keeps a block for each seed, in order, with only its
/// text possibly shortened.
pub proof fn lemma_candidate_prompt(
    ps: Seq<PieceView>,
    pieces: Seq<PieceView>,
    sc: int,
    b: LoadedBundle,
    question: Seq<char>,
)
    requires
        is_candidate(ps, pieces, sc),
    ensures
        render_spec(ps, b, question, false).take(INSTRUCTION@.len() as int) == INSTRUCTION@,
        render_spec(ps, b, question, false).skip(
            render_spec(ps, b, question, false).len() - ("\nQuestion: "@ + question + "\n"@).len(),
        ) == "\nQuestion: "@ + question + "\n"@,
        forall|i: int| 0 <= i < sc ==> (#[trigger] ps[i]).node_id == pieces[i].node_id,
{
    let r = render_spec(ps, b, question, false);
    let tail = "\nQuestion: "@ + question + "\n"@;
    assert(r.take(INSTRUCTION@.len() as int) =~= INSTRUCTION@);
    assert(r.skip(r.len() - tail.len()) =~= tail);
}

/// The block of `id`.
pub fn piece(b: &LoadedBundle, id: &str) -> (p: Piece)
    ensures
        piece_view(p) == piece_spec(*b, id@),
{
    if let Some(passage) = find_passage_of(&b.passages, id) {
        return Piece {
            node_id: copy_str(id),
            title: copy_str(passage.title.as_str()),
            link: copy_opt(&passage.wahapedia_link),
            text: copy_str(passage.text.as_str()),
        };
    }
    match b.node(id) {
        Some(n) => Piece {
            node_id: copy_str(id),
            title: copy_str(n.label.as_str()),
            link: copy_opt(&n.source_url),
            text: copy_str(n.text.as_str()),
        },
        None => Piece { node_id: copy_str(id), title: String::new(), link: None, text: String::new() },
    }
}

fn find_passage_of<'a>(passages: &'a Vec<Passage>, id: &str) -> (r: Option<&'a Passage>)
    ensures
        match r {
            Some(p) => passage_for(passages@, id@, 0) == Some(*p),
            None => passage_for(passages@, id@, 0) is None,
        },
{
    let mut i: usize = 0;
    while i < passages.len()
        invariant
            i <= passages@.len(),
            passage_for(passages@, id@, 0) == passage_for(passages@, id@, i as int),
        decreases passages@.len() - i,
    {
        if str_eq(passages[i].node_id.as_str(), id) {
            return Some(&passages[i]);
        }
        i = i + 1;
    }
    None
}

/// The label the prompt shows for `id`.
fn label(b: &LoadedBundle, id: &str) -> (r: String)
    ensures
        r@ == label_spec(*b, id@),
{
    match b.node(id) {
        Some(n) => copy_str(n.label.as_str()),
        None => copy_str(id),
    }
}

/// The prompt line of an edge.
fn edge_line(b: &LoadedBundle, e: &EdgeRecord) -> (r: String)
    ensures
        r@ == edge_line_spec(*b, *e),
{
    let mut line = chars_of(label(b, e.from.as_str()).as_str());
    append_str(&mut line, " -");
    append_str(&mut line, e.kind.as_str());
    append_str(&mut line, "-> ");
    append_str(&mut line, label(b, e.to.as_str()).as_str());
    let attrs = canonical_attrs(&e.attrs);
    if !str_eq(attrs.as_str(), "{}") {
        append_str(&mut line, " ");
        append_str(&mut line, attrs.as_str());
    }
    string_of(line.as_slice())
}

fn has_piece_id(pieces: &Vec<Piece>, keep: usize, id: &str) -> (r: bool)
    requires
        keep <= pieces@.len(),
    ensures
        r == piece_views(pieces@).take(keep as int).map_values(|p: PieceView| p.node_id).contains(id@),
{
    let ghost ids = piece_views(pieces@).take(keep as int).map_values(|p: PieceView| p.node_id);
    let mut j: usize = 0;
    while j < keep
        invariant
            j <= keep <= pieces@.len(),
            ids == piece_views(pieces@).take(keep as int).map_values(|p: PieceView| p.node_id),
            forall|m: int| 0 <= m < j ==> #[trigger] ids[m] != id@,
        decreases keep - j,
    {
        assert(ids[j as int] == pieces@[j as int].node_id@);
        if str_eq(pieces[j].node_id.as_str(), id) {
            return true;
        }
        j = j + 1;
    }
    false
}

/// The prompt for the first `keep` pieces.
fn render(pieces: &Vec<Piece>, keep: usize, b: &LoadedBundle, question: &str, no_match: bool) -> (r: String)
    requires
        keep <= pieces@.len(),
    ensures
        r@ == render_spec(piece_views(pieces@).take(keep as int), *b, question@, no_match),
{
    let ghost pv = piece_views(pieces@).take(keep as int);
    let ghost ids = pv.map_values(|p: PieceView| p.node_id);
    let mut out = chars_of(INSTRUCTION);
    append_str(&mut out, "\n\nEdges:\n");
    let ghost head = out@;
    let mut i: usize = 0;
    while i < b.edges.len()
        invariant
            i <= b.edges@.len(),
            keep <= pieces@.len(),
            pv == piece_views(pieces@).take(keep as int),
            ids == pv.map_values(|p: PieceView| p.node_id),
            out@ == head + edge_lines_upto(*b, ids, i as int),
        decreases b.edges@.len() - i,
    {
        let e = &b.edges[i];
        if has_piece_id(pieces, keep, e.from.as_str()) && has_piece_id(pieces, keep, e.to.as_str()) {
            append_str(&mut out, edge_line(b, e).as_str());
            append_str(&mut out, "\n");
        }
        i = i + 1;
    }
    append_str(&mut out, "\nPassages:\n");
    if no_match || keep == 0 {
        append_str(&mut out, "The bundle had no matching passage.\n");
    } else {
        let ghost mid = out@;
        let mut k: usize = 0;
        while k < keep
            invariant
                k <= keep <= pieces@.len(),
                pv == piece_views(pieces@).take(keep as int),
                out@ == mid + blocks_upto(pv, k as int),
            decreases keep - k,
        {
            let p = &pieces[k];
            assert(pv[k as int] == piece_view(*p));
            push_block(&mut out, p);
            k = k + 1;
        }
    }
    append_str(&mut out, "\nQuestion: ");
    append_str(&mut out, question);
    append_str(&mut out, "\n");
    string_of(out.as_slice())
}

/// The first `n` characters of `text`.
pub fn char_prefix(text: &str, n: usize) -> (r: String)
    ensures
        r@ == (if n <= text@.len() { text@.take(n as int) } else { text@ }),
{
    let cs = chars_of(text);
    let m = if n <= cs.len() {
        n
    } else {
        cs.len()
    };
    let head = sub_chars(&cs, 0, m);
    assert(cs@.subrange(0, m as int) =~= (if n <= text@.len() { text@.take(n as int) } else { text@ }));
    string_of(head.as_slice())
}

fn push_block(out: &mut Vec<char>, p: &Piece)
    ensures
        final(out)@ == old(out)@ + piece_block(piece_view(*p)),
{
    let ghost start = out@;
    append_str(out, "---\n");
    append_str(out, "title: ");
    append_str(out, p.title.as_str());
    append_str(out, "\nnode_id: ");
    append_str(out, p.node_id.as_str());
    append_str(out, "\nlink: ");
    match &p.link {
        Some(l) => append_str(out, l.as_str()),
        None => append_str(out, "none"),
    }
    append_str(out, "\n");
    append_str(out, p.text.as_str());
    let text = chars_of(p.text.as_str());
    if !(text.len() > 0 && text[text.len() - 1] == '\n') {
        append_str(out, "\n");
    }
    append_str(out, "---\n");
    assert(out@ =~= start + piece_block(piece_view(*p)));
}

fn retexted(p: &Piece, text: String) -> (q: Piece)
    ensures
        q.node_id@ == p.node_id@,
        q.title@ == p.title@,
        opt_view(q.link) == opt_view(p.link),
        q.text@ == text@,
{
    Piece { node_id: copy_str(p.node_id.as_str()), title: copy_str(p.title.as_str()), link: copy_opt(&p.link), text }
}

/// How far the search for a prompt that fits has got.
#[derive(Clone, Copy, Debug, PartialEq, Eq)]
pub enum Stage {
    /// Trying the first `keep` blocks, texts whole; fewer after each miss,
    /// down to the seeds.
    Drop,
    /// Cutting the text of seed `idx`: a prefix of `low` characters is the
    /// longest known to fit (or 0), one of more than `high` does not fit; the
    /// prefix tried is halfway.
    Cut { idx: usize, low: usize, high: usize },
    /// Trying seed `idx` cut to the prefix the cutting settled on.
    Settle { idx: usize },
    /// The last prompt tried fits.
    Fits,
    /// Nothing tried fits; the blocks as they stand are used.
    Last,
}

/// A search position: how many blocks are kept, each block's text length,
/// and the stage.
pub struct SearchView {
    pub keep: int,
    pub lens: Seq<int>,
    pub stage: Stage,
}

/// The text lengths of a list of blocks.
pub open spec fn text_lens(pieces: Seq<PieceView>) -> Seq<int> {
    pieces.map_values(|p: PieceView| p.text.len() as int)
}

/// The blocks with each text cut to its length in `lens`.
pub open spec fn cut_blocks(blocks: Seq<PieceView>, lens: Seq<int>) -> Seq<PieceView> {
    Seq::new(
        blocks.len(),
        |i: int|
            PieceView {
                node_id: blocks[i].node_id,
                title: blocks[i].title,
                link: blocks[i].link,
                text: blocks[i].text.take(lens[i]),
            },
    )
}

/// The prompt of a search position.
pub open spec fn search_prompt(blocks: Seq<PieceView>, s: SearchView, b: LoadedBundle, question: Seq<char>) -> Seq<char> {
    render_spec(cut_blocks(blocks, s.lens).take(s.keep), b, question, false)
}

/// The prefix length tried between `low` and `high`: halfway, rounded up.
pub open spec fn mid_of(low: int, high: int) -> int {
    low + ((high - low) / 2 + (high - low) % 2)
}

/// Cutting seed `idx` to between `low` and `high` characters: the halfway
/// prefix is tried while `low < high`, else the cut settles on `low`.
pub open spec fn enter_cut(s: SearchView, idx: int, low: int, high: int) -> SearchView {
    if low < high {
        SearchView {
            keep: s.keep,
            lens: s.lens.update(idx, mid_of(low, high)),
            stage: Stage::Cut { idx: idx as usize, low: low as usize, high: high as usize },
        }
    } else {
        SearchView { keep: s.keep, lens: s.lens.update(idx, low), stage: Stage::Settle { idx: idx as usize } }
    }
}

/// After the seeds from `idx` on are settled and the prompt still does not
/// fit: cut the seed before `idx`, or, with none left, use what stands.
pub open spec fn leave_seed(s: SearchView, idx: int, full: Seq<int>) -> SearchView {
    if idx <= 0 {
        SearchView { keep: s.keep, lens: s.lens, stage: Stage::Last }
    } else {
        enter_cut(s, idx - 1, 0, full[idx - 1])
    }
}

/// The next search position, once the tokenizer has said whether the
/// prompt of `s` fits; `seeds` blocks are never dropped and `full` gives
/// the whole text lengths.
pub open spec fn next_search(s: SearchView, fits: bool, seeds: int, full: Seq<int>) -> SearchView {
    match s.stage {
        Stage::Drop => if fits {
            SearchView { keep: s.keep, lens: s.lens, stage: Stage::Fits }
        } else if s.keep > seeds {
            SearchView { keep: s.keep - 1, lens: s.lens, stage: Stage::Drop }
        } else {
            leave_seed(s, seeds, full)
        },
        Stage::Cut { idx, low, high } => if fits {
            enter_cut(s, idx as int, s.lens[idx as int], high as int)
        } else {
            enter_cut(s, idx as int, low as int, s.lens[idx as int] - 1)
        },
        Stage::Settle { idx } => if fits {
            SearchView { keep: s.keep, lens: s.lens, stage: Stage::Fits }
        } else {
            leave_seed(s, idx as int, full)
        },
        _ => s,
    }
}

/// The search is over.
pub open spec fn search_done(s: SearchView) -> bool {
    s.stage is Fits || s.stage is Last
}

/// Where a search over `blocks` starts: every block kept, texts whole.
pub open spec fn search_start(blocks: Seq<PieceView>) -> SearchView {
    SearchView { keep: blocks.len() as int, lens: text_lens(blocks), stage: Stage::Drop }
}

/// The search position reached from `s` once the tokenizer has answered
/// `fits`, in order, for the prompts tried.
pub open spec fn search_run(s: SearchView, fits: Seq<bool>, seeds: int, full: Seq<int>) -> SearchView
    decreases fits.len(),
{
    if fits.len() == 0 {
        s
    } else {
        next_search(search_run(s, fits.drop_last(), seeds, full), fits.last(), seeds, full)
    }
}

/// The search position over the blocks of the context nodes once the
/// tokenizer has answered `fits`.
pub open spec fn context_search(b: LoadedBundle, context: ContextNodes, fits: Seq<bool>) -> SearchView {
    let blocks = context_pieces(b, strings_view(context.nodes@));
    search_run(search_start(blocks), fits, seed_count_of(context), text_lens(blocks))
}

/// How many of the context nodes are seeds.
pub open spec fn seed_count_of(context: ContextNodes) -> int {
    if context.seeds@.len() < context.nodes@.len() {
        context.seeds@.len() as int
    } else {
        context.nodes@.len() as int
    }
}

/// The search for the prompt to send: the blocks of the context nodes, the
/// seed count, the token budget, and the search position.
pub struct PromptSearch {
    pieces: Vec<Piece>,
    originals: Vec<String>,
    seeds: usize,
    budget: usize,
    keep: usize,
    stage: Stage,
    blocks: Ghost<Seq<PieceView>>,
}

impl View for PromptSearch {
    type V = SearchView;

    closed spec fn view(&self) -> SearchView {
        SearchView { keep: self.keep as int, lens: text_lens(piece_views(self.pieces@)), stage: self.stage }
    }
}

impl PromptSearch {
    /// The blocks of the context nodes, texts whole.
    pub closed spec fn blocks(&self) -> Seq<PieceView> {
        self.blocks@
    }

    /// How many leading blocks are seeds.
    pub closed spec fn seed_count(&self) -> int {
        self.seeds as int
    }

    /// The tokens the prompt may take.
    pub closed spec fn budget(&self) -> int {
        self.budget as int
    }

    /// The search is consistent: the blocks as they stand are the whole
    /// blocks cut to their lengths; whole texts while blocks beyond the seeds
    /// are kept; each stage's bounds hold.
    pub closed spec fn wf(&self) -> bool {
        let n = self.blocks@.len();
        let lens = text_lens(piece_views(self.pieces@));
        let full = text_lens(self.blocks@);
        &&& self.pieces@.len() == n
        &&& self.originals@.len() == n
        &&& forall|i: int| 0 <= i < n ==> (#[trigger] self.originals@[i])@ == self.blocks@[i].text
        &&& forall|i: int| 0 <= i < n ==> #[trigger] lens[i] <= full[i]
        &&& piece_views(self.pieces@) == cut_blocks(self.blocks@, lens)
        &&& self.seeds <= self.keep <= n
        &&& (self.keep > self.seeds || self.stage is Drop) ==> lens == full
        &&& match self.stage {
            Stage::Cut { idx, low, high } => {
                &&& self.keep == self.seeds
                &&& idx < self.seeds
                &&& low < high <= full[idx as int]
                &&& lens[idx as int] == mid_of(low as int, high as int)
                &&& forall|j: int| 0 <= j < idx ==> #[trigger] lens[j] == full[j]
            },
            Stage::Settle { idx } => {
                &&& self.keep == self.seeds
                &&& idx < self.seeds
                &&& forall|j: int| 0 <= j < idx ==> #[trigger] lens[j] == full[j]
            },
            _ => true,
        }
    }

    /// A search over the blocks of the context nodes, seeds first, with the
    /// context size less `reserve` as the budget; it starts with every block
    /// whole.
    pub fn start(b: &LoadedBundle, context: &ContextNodes, reserve: usize, context_tokens: usize) -> (s: PromptSearch)
        ensures
            s.wf(),
            s.blocks() == context_pieces(*b, strings_view(context.nodes@)),
            s.seed_count() == if context.seeds@.len() < context.nodes@.len() {
                context.seeds@.len() as int
            } else {
                context.nodes@.len() as int
            },
            s.budget() == if context_tokens >= reserve {
                context_tokens - reserve
            } else {
                0
            },
            s@ == (SearchView {
                keep: context.nodes@.len() as int,
                lens: text_lens(context_pieces(*b, strings_view(context.nodes@))),
                stage: Stage::Drop,
            }),
    {
        let budget = context_tokens.saturating_sub(reserve);
        let ghost nv = strings_view(context.nodes@);
        let mut pieces: Vec<Piece> = Vec::new();
        let mut originals: Vec<String> = Vec::new();
        let mut i: usize = 0;
        while i < context.nodes.len()
            invariant
                i <= context.nodes@.len(),
                nv == strings_view(context.nodes@),
                piece_views(pieces@) == nv.take(i as int).map_values(|id: Seq<char>| piece_spec(*b, id)),
                originals@.len() == i,
                forall|m: int| 0 <= m < i ==> (#[trigger] originals@[m])@ == piece_views(pieces@)[m].text,
            decreases context.nodes@.len() - i,
        {
            let ghost before = piece_views(pieces@);
            let p = piece(b, context.nodes[i].as_str());
            originals.push(copy_str(p.text.as_str()));
            pieces.push(p);
            proof {
                assert(nv.take(i + 1) =~= nv.take(i as int).push(nv[i as int]));
                assert(piece_views(pieces@) =~= before.push(piece_spec(*b, nv[i as int])));
                assert(nv.take(i + 1).map_values(|id: Seq<char>| piece_spec(*b, id)) =~= nv.take(
                    i as int,
                ).map_values(|id: Seq<char>| piece_spec(*b, id)).push(piece_spec(*b, nv[i as int])));
            }
            i = i + 1;
        }
        assert(nv.take(i as int) =~= nv);
        let n = pieces.len();
        let seeds = if context.seeds.len() < n {
            context.seeds.len()
        } else {
            n
        };
        let s = PromptSearch { pieces, originals, seeds, budget, keep: n, stage: Stage::Drop, blocks: Ghost(piece_views(pieces@)) };
        proof {
            let pv = piece_views(s.pieces@);
            let full = text_lens(pv);
            assert forall|k: int| 0 <= k < n implies pv[k].text.take(full[k]) == pv[k].text by {
                assert(pv[k].text.take(full[k]) =~= pv[k].text);
            }
            assert(pv =~= cut_blocks(pv, full));
        }
        s
    }

    /// Whether the search is over.
    pub fn finished(&self) -> (r: bool)
        ensures
            r == search_done(self@),
    {
        match self.stage {
            Stage::Fits | Stage::Last => true,
            _ => false,
        }
    }

    /// The prompt of the current search position.
    pub fn prompt(&self, b: &LoadedBundle, question: &str) -> (r: String)
        requires
            self.wf(),
        ensures
            r@ == search_prompt(self.blocks(), self@, *b, question@),
    {
        render(&self.pieces, self.keep, b, question, false)
    }

    fn cut_to(&mut self, idx: usize, len: usize)
        requires
            old(self).wf(),
            idx < old(self).blocks@.len(),
            len <= old(self).blocks@[idx as int].text.len(),
        ensures
            final(self).blocks@ == old(self).blocks@,
            final(self).seeds == old(self).seeds,
            final(self).budget == old(self).budget,
            final(self).keep == old(self).keep,
            final(self).stage == old(self).stage,
            final(self).originals@ == old(self).originals@,
            final(self).pieces@.len() == old(self).pieces@.len(),
            text_lens(piece_views(final(self).pieces@)) == text_lens(piece_views(old(self).pieces@)).update(
                idx as int,
                len as int,
            ),
            piece_views(final(self).pieces@) == cut_blocks(
                final(self).blocks@,
                text_lens(piece_views(final(self).pieces@)),
            ),
    {
        let ghost blocks = self.blocks@;
        let ghost old_lens = text_lens(piece_views(self.pieces@));
        let ghost before = self.pieces@;
        let cut = char_prefix(self.originals[idx].as_str(), len);
        let next = retexted(&self.pieces[idx], cut);
        self.pieces[idx] = next;
        proof {
            let lens = old_lens.update(idx as int, len as int);
            assert(self.originals@[idx as int]@ == blocks[idx as int].text);
            assert(piece_views(before)[idx as int] == cut_blocks(blocks, old_lens)[idx as int]);
            assert forall|j: int| 0 <= j < self.pieces@.len() implies #[trigger] piece_views(self.pieces@)[j]
                == cut_blocks(blocks, lens)[j] by {
                if j == idx {
                    assert(piece_views(self.pieces@)[j] == piece_view(next));
                    assert(blocks[j].text.take(len as int).len() == len);
                } else {
                    assert(self.pieces@[j] == before[j]);
                    assert(piece_views(before)[j] == cut_blocks(blocks, old_lens)[j]);
                }
            }
            assert(piece_views(self.pieces@) =~= cut_blocks(blocks, lens));
            assert forall|j: int| 0 <= j < self.pieces@.len() implies #[trigger] text_lens(piece_views(self.pieces@))[j]
                == lens[j] by {
                assert(piece_views(self.pieces@)[j] == cut_blocks(blocks, lens)[j]);
                if j != idx {
                    assert(piece_views(before)[j] == cut_blocks(blocks, old_lens)[j]);
                    assert(old_lens[j] == piece_views(before)[j].text.len());
                }
            }
            assert(text_lens(piece_views(self.pieces@)) =~= lens);
        }
    }

    fn enter(&mut self, idx: usize, low: usize, high: usize)
        requires
            old(self).wf(),
            old(self).keep == old(self).seeds,
            idx < old(self).seeds,
            low <= high <= old(self).blocks@[idx as int].text.len(),
            forall|j: int| 0 <= j < idx ==> #[trigger] text_lens(piece_views(old(self).pieces@))[j] == text_lens(
                old(self).blocks@,
            )[j],
        ensures
            final(self).wf(),
            final(self).blocks@ == old(self).blocks@,
            final(self).seeds == old(self).seeds,
            final(self).budget == old(self).budget,
            final(self)@ == enter_cut(old(self)@, idx as int, low as int, high as int),
    {
        let ghost full = text_lens(self.blocks@);
        if low < high {
            let m = low + ((high - low) / 2 + (high - low) % 2);
            self.cut_to(idx, m);
            self.stage = Stage::Cut { idx, low, high };
        } else {
            self.cut_to(idx, low);
            self.stage = Stage::Settle { idx };
        }
        proof {
            let lens = text_lens(piece_views(self.pieces@));
            assert forall|j: int| 0 <= j < self.blocks@.len() implies #[trigger] lens[j] <= full[j] by {}
        }
    }

    /// Moves the search on once the tokenizer has counted `count` tokens in
    /// the current prompt: the prompt fits when the count is within budget.
    pub fn advance(&mut self, count: usize)
        requires
            old(self).wf(),
            !search_done(old(self)@),
        ensures
            final(self).wf(),
            final(self).blocks() == old(self).blocks(),
            final(self).seed_count() == old(self).seed_count(),
            final(self).budget() == old(self).budget(),
            final(self)@ == next_search(
                old(self)@,
                count <= old(self).budget(),
                old(self).seed_count(),
                text_lens(old(self).blocks()),
            ),
    {
        let ghost full = text_lens(self.blocks@);
        let fits = count <= self.budget;
        match self.stage {
            Stage::Drop => {
                if fits {
                    self.stage = Stage::Fits;
                } else if self.keep > self.seeds {
                    self.keep = self.keep - 1;
                } else {
                    self.leave(self.seeds);
                }
            },
            Stage::Cut { idx, low, high } => {
                let ghost lens = text_lens(piece_views(self.pieces@));
                let m = low + ((high - low) / 2 + (high - low) % 2);
                assert(m == lens[idx as int]);
                if fits {
                    self.enter(idx, m, high);
                } else {
                    self.enter(idx, low, m - 1);
                }
            },
            Stage::Settle { idx } => {
                if fits {
                    self.stage = Stage::Fits;
                } else {
                    self.leave(idx);
                }
            },
            _ => {},
        }
    }

    fn leave(&mut self, idx: usize)
        requires
            old(self).wf(),
            old(self).keep == old(self).seeds,
            idx <= old(self).seeds,
            forall|j: int| 0 <= j < idx ==> #[trigger] text_lens(piece_views(old(self).pieces@))[j] == text_lens(
                old(self).blocks@,
            )[j],
        ensures
            final(self).wf(),
            final(self).blocks@ == old(self).blocks@,
            final(self).seeds == old(self).seeds,
            final(self).budget == old(self).budget,
            final(self)@ == leave_seed(old(self)@, idx as int, text_lens(old(self).blocks@)),
    {
        if idx == 0 {
            self.stage = Stage::Last;
        } else {
            let high = chars_of(self.originals[idx - 1].as_str()).len();
            proof {
                assert(self.originals@[idx - 1]@ == self.blocks@[idx - 1].text);
            }
            self.enter(idx - 1, 0, high);
        }
    }
}

/// Whatever a search reaches, its prompt renders the first context blocks,
/// at least the seeds', texts shortened only when nothing beyond the seeds
/// is kept.
proof fn lemma_search_candidate(s: PromptSearch)
    requires
        s.wf(),
    ensures
        is_candidate(cut_blocks(s.blocks(), s@.lens).take(s@.keep), s.blocks(), s.seed_count()),
{
    let blocks = s.blocks();
    let lens = s@.lens;
    let ps = cut_blocks(blocks, lens).take(s@.keep);
    assert forall|i: int| 0 <= i < ps.len() implies (#[trigger] ps[i]).node_id == blocks[i].node_id && ps[i].title
        == blocks[i].title && ps[i].link == blocks[i].link && ps[i].text.is_prefix_of(blocks[i].text) by {
        assert(blocks[i].text.take(lens[i]) =~= blocks[i].text.subrange(0, lens[i]));
    }
    if ps.len() > s.seed_count() {
        assert forall|i: int| 0 <= i < ps.len() implies (#[trigger] ps[i]).text == blocks[i].text by {
            assert(lens[i] == blocks[i].text.len());
            assert(blocks[i].text.take(lens[i]) =~= blocks[i].text);
        }
    }
}

/// The search's ranks: it moves from dropping blocks to cutting seeds to
/// done.
pub open spec fn stage_rank(s: SearchView) -> int {
    match s.stage {
        Stage::Drop => 2,
        Stage::Cut { .. } => 1,
        Stage::Settle { .. } => 1,
        _ => 0,
    }
}

/// The seed being cut.
pub open spec fn stage_seed(s: SearchView) -> int {
    match s.stage {
        Stage::Cut { idx, .. } => idx as int,
        Stage::Settle { idx } => idx as int,
        _ => 0,
    }
}

/// How much room the cutting of a seed has left.
pub open spec fn stage_gap(s: SearchView) -> int {
    match s.stage {
        Stage::Cut { low, high, .. } => high - low + 1,
        _ => 0,
    }
}

/// What the search has learnt after the answers `fits`: while dropping
/// blocks, each answer so far said no; with more blocks than the seeds, texts
/// are whole, each larger count said no, and a fitting end said yes; once
/// seeds are cut or the search gave up, every count down to the seeds alone
/// said no.
spec fn run_shape(n: int, seeds: int, full: Seq<int>, fits: Seq<bool>, s: SearchView) -> bool {
    &&& seeds <= s.keep <= n
    &&& s.stage is Drop ==> s.keep == n - fits.len() && s.lens == full && forall|j: int|
        0 <= j < fits.len() ==> !#[trigger] fits[j]
    &&& s.keep > seeds ==> {
        &&& s.lens == full
        &&& s.stage is Drop || s.stage is Fits
        &&& n - s.keep <= fits.len()
        &&& forall|j: int| 0 <= j < n - s.keep ==> !#[trigger] fits[j]
        &&& s.stage is Fits ==> n - s.keep < fits.len() && fits[n - s.keep]
    }
    &&& (s.lens != full || s.stage is Cut || s.stage is Settle || s.stage is Last) ==> {
        &&& s.keep == seeds
        &&& n - seeds < fits.len()
        &&& forall|j: int| 0 <= j <= n - seeds ==> !#[trigger] fits[j]
    }
}

proof fn lemma_run_shape(blocks: Seq<PieceView>, seeds: int, fits: Seq<bool>)
    requires
        0 <= seeds <= blocks.len(),
    ensures
        run_shape(
            blocks.len() as int,
            seeds,
            text_lens(blocks),
            fits,
            search_run(search_start(blocks), fits, seeds, text_lens(blocks)),
        ),
    decreases fits.len(),
{
    let n = blocks.len() as int;
    let full = text_lens(blocks);
    if fits.len() > 0 {
        let f0 = fits.drop_last();
        let x = fits.last();
        lemma_run_shape(blocks, seeds, f0);
        let s0 = search_run(search_start(blocks), f0, seeds, full);
        let s1 = search_run(search_start(blocks), fits, seeds, full);
        assert(s1 == next_search(s0, x, seeds, full));
        assert(forall|j: int| 0 <= j < f0.len() ==> #[trigger] fits[j] == f0[j]);
        assert(fits[f0.len() as int] == x);
    }
}

/// The search keeps as many blocks as fit: when it ends with more blocks than
/// the seeds, their texts are whole, every larger block count was tried first
/// and did not fit, and a prompt it ends on as fitting did fit. Seed texts
/// are cut only after every block count down to the seeds alone was tried and
/// did not fit.
pub proof fn lemma_search_keeps_most(blocks: Seq<PieceView>, seeds: int, fits: Seq<bool>)
    requires
        0 <= seeds <= blocks.len(),
    ensures
        ({
            let end = search_run(search_start(blocks), fits, seeds, text_lens(blocks));
            &&& end.keep > seeds ==> {
                &&& end.lens == text_lens(blocks)
                &&& blocks.len() - end.keep <= fits.len()
                &&& forall|j: int| 0 <= j < blocks.len() - end.keep ==> !#[trigger] fits[j]
                &&& end.stage is Fits ==> blocks.len() - end.keep < fits.len() && fits[blocks.len() - end.keep]
            }
            &&& end.lens != text_lens(blocks) ==> {
                &&& end.keep == seeds
                &&& blocks.len() - seeds < fits.len()
                &&& forall|j: int| 0 <= j <= blocks.len() - seeds ==> !#[trigger] fits[j]
            }
        }),
{
    lemma_run_shape(blocks, seeds, fits);
}

/// Builds the only prompt the chat model sees: a `PromptSearch` over the
/// context blocks, moved on by the chat model's token counts until it is
/// over. A failure of the tokenizer is passed on. The prompt returned is the
/// one where the search ends for the answers the counts gave, each answer
/// being whether the count was within the budget; whatever the tokenizer
/// says, it renders the first context blocks, at least the seeds', texts
/// shortened only when nothing beyond the seeds is kept.
pub fn build<C: ChatModel + ?Sized>(
    b: &LoadedBundle,
    context: &ContextNodes,
    question: &str,
    reserve: usize,
    chat: &mut C,
) -> (r: Result<String, AskError>)
    ensures
        r matches Ok(p) ==> exists|fits: Seq<bool>|
            search_done(#[trigger] context_search(*b, *context, fits)) && p@ == search_prompt(
                context_pieces(*b, strings_view(context.nodes@)),
                context_search(*b, *context, fits),
                *b,
                question@,
            ),
        r matches Ok(p) ==> exists|ps: Seq<PieceView>|
            is_candidate(ps, context_pieces(*b, strings_view(context.nodes@)), seed_count_of(*context))
                && #[trigger] render_spec(ps, *b, question@, false) == p@,
{
    let mut search = PromptSearch::start(b, context, reserve, chat.context_tokens());
    let ghost blocks = search.blocks();
    let ghost seeds = search.seed_count();
    let ghost full = text_lens(blocks);
    let ghost mut fits: Seq<bool> = Seq::empty();
    loop
        invariant
            search.wf(),
            search.blocks() == blocks,
            search.seed_count() == seeds,
            blocks == context_pieces(*b, strings_view(context.nodes@)),
            seeds == seed_count_of(*context),
            full == text_lens(blocks),
            search@ == search_run(search_start(blocks), fits, seeds, full),
        decreases stage_rank(search@), search@.keep, stage_seed(search@), stage_gap(search@),
    {
        let prompt = search.prompt(b, question);
        if search.finished() {
            proof {
                lemma_search_candidate(search);
                let ps = cut_blocks(blocks, search@.lens).take(search@.keep);
                assert(render_spec(ps, *b, question@, false) == prompt@);
                let end = context_search(*b, *context, fits);
                assert(search_done(end) && prompt@ == search_prompt(blocks, end, *b, question@));
            }
            return Ok(prompt);
        }
        let count = chat.count_tokens(prompt.as_str())?;
        let ghost fit = count <= search.budget();
        search.advance(count);
        proof {
            assert(fits.push(fit).drop_last() =~= fits);
            fits = fits.push(fit);
        }
    }
}

} // verus!
