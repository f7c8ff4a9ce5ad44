//! The decisions around Lemonade's OpenAI-compatible API: which installed models may
//! be offered for chat and in what order, how an embeddings reply is turned into
//! vectors or a labelled error, and how a chat reply is cleaned of `<think>` blocks.
//! The HTTP exchange itself lives with the caller; these functions take what came
//! back as plain values.
use crate::text::{
    chars_of, contains_seq, contains_text, find_first, find_from_exec, lemma_contains_find, lemma_find_from, occurs_at, ends_with_seq, trim_end, trim_start,
    lemma_find_shift, lemma_lex_irreflexive, lemma_lex_total, lemma_lex_transitive, lex_less, lex_lt,
    lowercase, lowercase_of, same_text, starts_with_seq, starts_with_text, trim, trimmed,
};
use vstd::prelude::*;
use vstd::string::*;

verus! {

/// Marks an embeddings error as "this specific input was rejected for being too
/// large", so callers can retry with a smaller input instead of giving up.
pub const EMBED_TOO_LARGE_PREFIX: &'static str = "EMBED_TOO_LARGE:";

/// How many times an embeddings request is sent before a send failure is reported.
pub const MAX_SEND_ATTEMPTS: u32 = 3;

// ---------------------------------------------------------------------------
// HTTP status codes
// ---------------------------------------------------------------------------

/// How a status code displays: its three digits and its canonical reason phrase.
pub uninterp spec fn status_line(code: u16) -> Seq<char>;

/// A status code in the 2xx range.
pub open spec fn is_success_code(code: u16) -> bool {
    200 <= code && code < 300
}

/// A value that `reqwest::StatusCode` can hold.
pub open spec fn valid_status(code: u16) -> bool {
    100 <= code && code <= 999
}

/// Whether a status code is in the 2xx range, as `StatusCode::is_success` defines it.
fn status_is_success(code: u16) -> (b: bool)
    ensures
        b == is_success_code(code),
{
    200 <= code && code < 300
}

/// Calls `reqwest::StatusCode::from_u16` and renders the result with its `Display`
/// impl ("404 Not Found"); the text is named `status_line`, nothing more is claimed.
#[verifier::external_body]
fn status_display(code: u16) -> (r: String)
    requires
        valid_status(code),
    ensures
        r@ == status_line(code),
{
    match reqwest::StatusCode::from_u16(code) {
        Ok(status) => status.to_string(),
        Err(e) => e.to_string(),
    }
}

/// `prefix`, the status, `": "` and `detail`: the shape of every HTTP failure message.
pub open spec fn returned_message(prefix: Seq<char>, code: u16, detail: Seq<char>) -> Seq<char> {
    prefix + status_line(code) + ": "@ + detail
}

fn returned_text(prefix: &str, code: u16, detail: &str) -> (r: String)
    requires
        valid_status(code),
    ensures
        r@ == returned_message(prefix@, code, detail@),
{
    let mut s = prefix.to_owned();
    let st = status_display(code);
    s.append(st.as_str());
    s.append(": ");
    s.append(detail);
    s
}

// ---------------------------------------------------------------------------
// Chat replies and `<think>` blocks
// ---------------------------------------------------------------------------

/// The opening tag of a reasoning block.
pub open spec fn open_tag() -> Seq<char> {
    seq!['<', 't', 'h', 'i', 'n', 'k', '>']
}

/// The closing tag of a reasoning block.
pub open spec fn close_tag() -> Seq<char> {
    seq!['<', '/', 't', 'h', 'i', 'n', 'k', '>']
}

/// The text outside every `<think>…</think>` block (`.0`) and inside them (`.1`), each
/// in order and untrimmed. An unclosed block runs to the end of the text.
pub open spec fn think_parts(rest: Seq<char>) -> (Seq<char>, Seq<char>)
    decreases rest.len(),
{
    match find_first(rest, open_tag()) {
        None => (rest, Seq::empty()),
        Some(start) => {
            if start < 0 || start + 7 > rest.len() {
                (rest, Seq::empty())
            } else {
                let after = rest.subrange(start + 7, rest.len() as int);
                match find_first(after, close_tag()) {
                    None => (rest.subrange(0, start), after),
                    Some(end) => {
                        if end < 0 || end + 8 > after.len() {
                            (rest, Seq::empty())
                        } else {
                            let next = think_parts(after.subrange(end + 8, after.len() as int));
                            (rest.subrange(0, start) + next.0, after.subrange(0, end) + next.1)
                        }
                    }
                }
            }
        }
    }
}

/// The visible answer: the text outside reasoning blocks, trimmed.
pub open spec fn visible_text(content: Seq<char>) -> Seq<char> {
    trimmed(think_parts(content).0)
}

/// The reasoning: the text inside reasoning blocks, trimmed.
pub open spec fn reasoning_text(content: Seq<char>) -> Seq<char> {
    trimmed(think_parts(content).1)
}

/// The visible answer, or the reasoning when nothing is visible.
pub open spec fn stripped(content: Seq<char>) -> Seq<char> {
    if visible_text(content).len() == 0 {
        reasoning_text(content)
    } else {
        visible_text(content)
    }
}

/// Whether a model family understands the `/no_think` control line.
pub open spec fn takes_no_think(model: Seq<char>) -> bool {
    contains_seq(lowercase_of(model), "qwen3"@)
}

/// `/no_think` is a Qwen3 control token; only that family is sent it. The match is on
/// the lower-cased model name.
pub fn understands_no_think(model: &str) -> (b: bool)
    ensures
        b == takes_no_think(model@),
{
    let lower = lowercase(model);
    contains_text(lower.as_str(), "qwen3")
}

/// The user message sent to `model`: `user`, with a `/no_think` line added for the
/// family that implements it.
pub fn chat_user_content(model: &str, user: &str) -> (r: String)
    ensures
        r@ == if takes_no_think(model@) {
            user@ + "\n/no_think"@
        } else {
            user@
        },
{
    let mut content = user.to_owned();
    if understands_no_think(model) {
        content.append("\n/no_think");
    }
    content
}

proof fn lemma_tags(open: &str, close: &str)
    requires
        open == "<think>",
        close == "</think>",
    ensures
        open@ == open_tag(),
        close@ == close_tag(),
{
    reveal_strlit("<think>");
    reveal_strlit("</think>");
    assert(open@ =~= open_tag());
    assert(close@ =~= close_tag());
}

/// Separates a reply into its visible answer and its reasoning: every `<think>…</think>`
/// block is removed from the answer and its inside collected as reasoning, both in
/// order; both are trimmed.
pub fn split_thinking(content: &str) -> (r: (String, String))
    ensures
        r.0@ == visible_text(content@),
        r.1@ == reasoning_text(content@),
{
    let open = "<think>";
    let close = "</think>";
    proof {
        lemma_tags(open, close);
    }
    let cv = chars_of(content);
    let ov = chars_of(open);
    let clv = chars_of(close);
    let n = cv.len();
    let mut visible = String::new();
    let mut thought = String::new();
    let mut pos: usize = 0;
    assert(cv@.subrange(0, n as int) =~= cv@);
    loop
        invariant_except_break
            think_parts(content@) == (
                visible@ + think_parts(cv@.subrange(pos as int, n as int)).0,
                thought@ + think_parts(cv@.subrange(pos as int, n as int)).1,
            ),
        invariant
            pos <= n,
            n == cv@.len(),
            cv@ == content@,
            ov@ == open_tag(),
            clv@ == close_tag(),
        ensures
            think_parts(content@) == (visible@, thought@),
        decreases n - pos,
    {
        let ghost rest = cv@.subrange(pos as int, n as int);
        proof {
            lemma_find_shift(cv@, open_tag(), pos as int, 0);
            lemma_find_from(cv@, open_tag(), pos as int);
        }
        match find_from_exec(&cv, &ov, pos) {
            None => {
                assert(think_parts(rest) == (rest, Seq::<char>::empty()));
                visible.append(content.substring_char(pos, n));
                assert(visible@ + Seq::<char>::empty() =~= visible@);
                assert(thought@ + Seq::<char>::empty() =~= thought@);
                break ;
            },
            Some(start) => {
                let a = start + 7;
                let ghost after = rest.subrange(start - pos + 7, rest.len() as int);
                assert(after =~= cv@.subrange(a as int, n as int));
                proof {
                    lemma_find_shift(cv@, close_tag(), a as int, 0);
                    lemma_find_from(cv@, close_tag(), a as int);
                }
                assert(rest.subrange(0, start - pos) =~= cv@.subrange(pos as int, start as int));
                visible.append(content.substring_char(pos, start));
                match find_from_exec(&cv, &clv, a) {
                    Some(end) => {
                        let b = end + 8;
                        assert(after.subrange(0, end - a) =~= cv@.subrange(a as int, end as int));
                        assert(after.subrange(end - a + 8, after.len() as int) =~= cv@.subrange(
                            b as int,
                            n as int,
                        ));
                        thought.append(content.substring_char(a, end));
                        pos = b;
                    },
                    None => {
                        thought.append(content.substring_char(a, n));
                        break ;
                    },
                }
            },
        }
    }
    (trim(visible.as_str()), trim(thought.as_str()))
}

/// The visible answer, falling back to the reasoning when the model left nothing
/// outside its reasoning block.
pub fn strip_thinking(content: &str) -> (r: String)
    ensures
        r@ == stripped(content@),
{
    let (visible, thought) = split_thinking(content);
    if visible.as_str().is_empty() {
        thought
    } else {
        visible
    }
}

/// The answer to return for a chat reply whose first choice carried `content`: the
/// stripped text, or an error when nothing is left of it.
pub fn chat_answer(content: Option<String>) -> (r: Result<String, String>)
    ensures
        ({
            let c = match content {
                Some(s) => s@,
                None => Seq::<char>::empty(),
            };
            match r {
                Ok(answer) => stripped(c).len() > 0 && answer@ == stripped(c),
                Err(e) => stripped(c).len() == 0 && e@ == "the model returned an empty response"@,
            }
        }),
{
    let text = match content {
        Some(s) => s,
        None => String::new(),
    };
    let answer = strip_thinking(text.as_str());
    if answer.as_str().is_empty() {
        Err("the model returned an empty response".to_owned())
    } else {
        Ok(answer)
    }
}

/// The error for a chat request answered with a non-success status.
pub fn chat_failure(status: u16, body: &str) -> (r: String)
    requires
        valid_status(status),
    ensures
        r@ == returned_message("chat request returned "@, status, body@),
{
    returned_text("chat request returned ", status, body)
}

// ---------------------------------------------------------------------------
// The chat model picker
// ---------------------------------------------------------------------------

/// Labels of models that cannot answer a chat completion, matched lower-cased.
pub open spec fn is_non_chat_label(label: Seq<char>) -> bool {
    ||| label == "embeddings"@
    ||| label == "embedding"@
    ||| label == "reranking"@
    ||| label == "transcription"@
    ||| label == "realtime-transcription"@
    ||| label == "tts"@
    ||| label == "classification"@
    ||| label == "image-generation"@
    ||| label == "audio-generation"@
}

/// A model may be offered for chat when it is not known to be missing and none of its
/// labels, lower-cased, marks it as something other than a generation model.
pub open spec fn chat_candidate(labels: Seq<Seq<char>>, downloaded: Option<bool>) -> bool {
    &&& downloaded != Some(false)
    &&& forall|i: int| 0 <= i < labels.len() ==> !is_non_chat_label(lowercase_of(#[trigger] labels[i]))
}

/// Whether a lower-cased label marks a model that cannot answer a chat completion.
pub fn non_chat_label(label: &str) -> (b: bool)
    ensures
        b == is_non_chat_label(label@),
{
    same_text(label, "embeddings") || same_text(label, "embedding") || same_text(label, "reranking")
        || same_text(label, "transcription") || same_text(label, "realtime-transcription")
        || same_text(label, "tts") || same_text(label, "classification") || same_text(
        label,
        "image-generation",
    ) || same_text(label, "audio-generation")
}

/// Whether a model with these labels and this download state may be offered for chat.
pub fn is_chat_candidate(labels: &Vec<String>, downloaded: Option<bool>) -> (b: bool)
    ensures
        b == chat_candidate(labels@.map_values(|l: String| l@), downloaded),
{
    let ghost views = labels@.map_values(|l: String| l@);
    if downloaded == Some(false) {
        return false;
    }
    let mut i: usize = 0;
    while i < labels.len()
        invariant
            i <= labels.len(),
            views == labels@.map_values(|l: String| l@),
            forall|j: int| 0 <= j < i ==> !is_non_chat_label(lowercase_of(#[trigger] views[j])),
        decreases labels.len() - i,
    {
        let lower = lowercase(labels[i].as_str());
        if non_chat_label(lower.as_str()) {
            assert(views[i as int] == labels@[i as int]@);
            return false;
        }
        i = i + 1;
    }
    true
}

/// A model offered for chat, by the key its runtime cost orders by and its id.
pub struct RankedModel {
    pub cost_key: u64,
    pub id: String,
}

/// Model `a` (at position `pa`) comes before model `b` (at `pb`): cheaper first, then
/// by id, then by position, so equal models keep their order.
pub open spec fn ranks_before(a: (u64, Seq<char>), pa: int, b: (u64, Seq<char>), pb: int) -> bool {
    ||| a.0 < b.0
    ||| (a.0 == b.0 && lex_lt(a.1, b.1))
    ||| (a.0 == b.0 && a.1 == b.1 && pa < pb)
}

/// The ranking key of model `k`.
pub open spec fn rank_of(models: Seq<RankedModel>, k: int) -> (u64, Seq<char>) {
    (models[k].cost_key, models[k].id@)
}

/// `order` lists every position of `models` exactly once, cheapest first.
pub open spec fn cheapest_first_order(models: Seq<RankedModel>, order: Seq<usize>) -> bool {
    &&& order.len() == models.len()
    &&& forall|p: int| 0 <= p < order.len() ==> #[trigger] order[p] < models.len()
    &&& forall|k: usize| k < models.len() ==> #[trigger] order.contains(k)
    &&& forall|p: int, q: int|
        0 <= p < q < order.len() ==> ranks_before(
            rank_of(models, order[p] as int),
            order[p] as int,
            rank_of(models, order[q] as int),
            order[q] as int,
        )
}

proof fn lemma_ranks_transitive(
    a: (u64, Seq<char>),
    pa: int,
    b: (u64, Seq<char>),
    pb: int,
    c: (u64, Seq<char>),
    pc: int,
)
    requires
        ranks_before(a, pa, b, pb),
        ranks_before(b, pb, c, pc),
    ensures
        ranks_before(a, pa, c, pc),
{
    if a.0 == b.0 && b.0 == c.0 {
        if lex_lt(a.1, b.1) && lex_lt(b.1, c.1) {
            lemma_lex_transitive(a.1, b.1, c.1);
        }
    }
}

proof fn lemma_ranks_total(a: (u64, Seq<char>), pa: int, b: (u64, Seq<char>), pb: int)
    requires
        pa != pb,
    ensures
        ranks_before(a, pa, b, pb) || ranks_before(b, pb, a, pa),
        !(ranks_before(a, pa, b, pb) && ranks_before(b, pb, a, pa)),
{
    lemma_lex_total(a.1, b.1);
    lemma_lex_irreflexive(a.1);
}

fn model_before(models: &Vec<RankedModel>, a: usize, b: usize) -> (r: bool)
    requires
        a < models.len(),
        b < models.len(),
    ensures
        r == ranks_before(rank_of(models@, a as int), a as int, rank_of(models@, b as int), b as int),
{
    let ma = &models[a];
    let mb = &models[b];
    if ma.cost_key != mb.cost_key {
        ma.cost_key < mb.cost_key
    } else if lex_less(ma.id.as_str(), mb.id.as_str()) {
        true
    } else {
        same_text(ma.id.as_str(), mb.id.as_str()) && a < b
    }
}

/// The order to offer models in: cheapest first, ties broken by id, and models equal
/// in both keep their relative order.
pub fn cheapest_first(models: &Vec<RankedModel>) -> (order: Vec<usize>)
    ensures
        cheapest_first_order(models@, order@),
{
    let n = models.len();
    let mut order: Vec<usize> = Vec::new();
    let mut i: usize = 0;
    while i < n
        invariant
            i <= n,
            n == models@.len(),
            order@.len() == i,
            forall|p: int| 0 <= p < order@.len() ==> #[trigger] order@[p] < i,
            forall|k: usize| k < i ==> #[trigger] order@.contains(k),
            forall|p: int, q: int|
                0 <= p < q < order@.len() ==> ranks_before(
                    rank_of(models@, order@[p] as int),
                    order@[p] as int,
                    rank_of(models@, order@[q] as int),
                    order@[q] as int,
                ),
        decreases n - i,
    {
        // first position whose model ranks after model i
        let mut p: usize = 0;
        while p < order.len() && !model_before(models, i, order[p])
            invariant
                p <= order@.len(),
                i < n,
                n == models@.len(),
                forall|q: int| 0 <= q < order@.len() ==> #[trigger] order@[q] < i,
                forall|q: int|
                    0 <= q < p ==> ranks_before(
                        rank_of(models@, #[trigger] order@[q] as int),
                        order@[q] as int,
                        rank_of(models@, i as int),
                        i as int,
                    ),
            decreases order@.len() - p,
        {
            proof {
                lemma_ranks_total(
                    rank_of(models@, order@[p as int] as int),
                    order@[p as int] as int,
                    rank_of(models@, i as int),
                    i as int,
                );
            }
            p = p + 1;
        }
        let ghost old_order = order@;
        proof {
            assert forall|q: int| p <= q < old_order.len() implies ranks_before(
                rank_of(models@, i as int),
                i as int,
                rank_of(models@, #[trigger] old_order[q] as int),
                old_order[q] as int,
            ) by {
                if q > p {
                    lemma_ranks_transitive(
                        rank_of(models@, i as int),
                        i as int,
                        rank_of(models@, old_order[p as int] as int),
                        old_order[p as int] as int,
                        rank_of(models@, old_order[q] as int),
                        old_order[q] as int,
                    );
                }
            }
        }
        order.insert(p, i);
        assert(order@ =~= old_order.subrange(0, p as int).push(i).add(
            old_order.subrange(p as int, old_order.len() as int),
        ));
        assert forall|k: usize| k < i + 1 implies #[trigger] order@.contains(k) by {
            if k == i {
                assert(order@[p as int] == i);
            } else {
                assert(old_order.contains(k));
                let w = choose|w: int| 0 <= w < old_order.len() && old_order[w] == k;
                if w < p {
                    assert(order@[w] == k);
                } else {
                    assert(order@[w + 1] == k);
                }
            }
        }
        assert forall|a: int, b: int| 0 <= a < b < order@.len() implies ranks_before(
            rank_of(models@, order@[a] as int),
            order@[a] as int,
            rank_of(models@, order@[b] as int),
            order@[b] as int,
        ) by {
            if a < p && b == p {
            } else if a < p && b > p {
                assert(order@[b] == old_order[b - 1]);
            } else if a == p {
                assert(order@[b] == old_order[b - 1]);
            } else if a > p {
                assert(order@[a] == old_order[a - 1]);
                assert(order@[b] == old_order[b - 1]);
            }
        }
        i = i + 1;
    }
    order
}

// ---------------------------------------------------------------------------
// Embeddings replies
// ---------------------------------------------------------------------------

/// The slot an embedding item fills: its declared index, else its position.
pub open spec fn slot_of(declared: Option<usize>, pos: int) -> int {
    match declared {
        Some(i) => i as int,
        None => pos,
    }
}

/// The last item among the first `upto` whose slot is `k`.
pub open spec fn last_for_slot<E>(items: Seq<(Option<usize>, Vec<E>)>, k: int, upto: int) -> Option<int>
    decreases upto,
{
    if upto <= 0 {
        None
    } else if slot_of(items[upto - 1].0, upto - 1) == k {
        Some(upto - 1)
    } else {
        last_for_slot(items, k, upto - 1)
    }
}

/// The vectors in slot order: slot `k` holds the embedding of the last item that names
/// it, or nothing; items naming a slot past `expected_len` are ignored.
pub open spec fn ordered_embeddings<E>(items: Seq<(Option<usize>, Vec<E>)>, expected_len: nat) -> Seq<Seq<E>> {
    Seq::new(
        expected_len,
        |k: int|
            match last_for_slot(items, k, items.len() as int) {
                Some(j) => items[j].1@,
                None => Seq::<E>::empty(),
            },
    )
}

/// Places each returned embedding in the slot of the input it belongs to.
pub fn order_embeddings<E>(items: Vec<(Option<usize>, Vec<E>)>, expected_len: usize) -> (r: Vec<Vec<E>>)
    ensures
        r@.map_values(|v: Vec<E>| v@) == ordered_embeddings(items@, expected_len as nat),
{
    let ghost all = items@;
    let mut items = items;
    let mut ordered: Vec<Vec<E>> = Vec::new();
    let mut filled: Vec<bool> = Vec::new();
    let mut k: usize = 0;
    while k < expected_len
        invariant
            k <= expected_len,
            ordered@.len() == k,
            filled@.len() == k,
            forall|j: int| 0 <= j < k ==> (#[trigger] ordered@[j])@ == Seq::<E>::empty(),
            forall|j: int| 0 <= j < k ==> !#[trigger] filled@[j],
        decreases expected_len - k,
    {
        ordered.push(Vec::new());
        filled.push(false);
        k = k + 1;
    }
    // Walk the items from the last: the first one to reach a slot is the last to name it.
    while items.len() > 0
        invariant
            items@ == all.subrange(0, items@.len() as int),
            items@.len() <= all.len(),
            ordered@.len() == expected_len,
            filled@.len() == expected_len,
            forall|j: int|
                0 <= j < expected_len && #[trigger] filled@[j] ==> (last_for_slot(
                    all,
                    j,
                    all.len() as int,
                ) matches Some(w) && w >= items@.len() && ordered@[j]@ == all[w].1@),
            forall|j: int|
                0 <= j < expected_len && !#[trigger] filled@[j] ==> last_for_slot(
                    all,
                    j,
                    all.len() as int,
                ) == last_for_slot(all, j, items@.len() as int) && ordered@[j]@ == Seq::<
                    E,
                >::empty(),
        decreases items@.len(),
    {
        let pos = items.len() - 1;
        let (declared, embedding) = items.pop().unwrap();
        let slot = match declared {
            Some(i) => i,
            None => pos,
        };
        proof {
            assert forall|j: int| 0 <= j < expected_len && j != slot implies last_for_slot(
                all,
                j,
                pos + 1,
            ) == last_for_slot(all, j, pos as int) by {
                assert(all[pos as int] == (declared, embedding));
            }
            if slot < expected_len {
                assert(all[pos as int] == (declared, embedding));
                assert(last_for_slot(all, slot as int, pos + 1) == Some(pos as int));
            }
        }
        if slot < expected_len && !filled[slot] {
            ordered.set(slot, embedding);
            filled.set(slot, true);
        }
        assert(items@ =~= all.subrange(0, items@.len() as int));
    }
    let r = ordered;
    assert forall|j: int| 0 <= j < expected_len implies (r@.map_values(|v: Vec<E>| v@))[j]
        == ordered_embeddings(all, expected_len as nat)[j] by {
        if !filled@[j] {
            assert(last_for_slot(all, j, 0) is None);
        }
    }
    assert(r@.map_values(|v: Vec<E>| v@) =~= ordered_embeddings(all, expected_len as nat));
    r
}

/// The error for an embeddings reply that did not parse as embeddings. `envelope` is
/// the message of an `{"error": {"message": …}}` body, when the body has that shape.
pub open spec fn embeddings_failure_text(
    envelope: Option<Seq<char>>,
    status: u16,
    parse_error: Seq<char>,
    body: Seq<char>,
) -> Seq<char> {
    match envelope {
        Some(m) => if contains_seq(lowercase_of(m), "too large"@) {
            EMBED_TOO_LARGE_PREFIX@ + m
        } else {
            "embeddings request failed ("@ + status_line(status) + "): "@ + m
        },
        None => if is_success_code(status) {
            "failed to parse embeddings response ("@ + status_line(status) + "): "@ + parse_error
        } else {
            returned_message("embeddings request returned "@, status, body)
        },
    }
}

/// Labels an embeddings reply that did not parse: a rejection for size is marked with
/// [`EMBED_TOO_LARGE_PREFIX`], an error envelope keeps its message, an unparsable 2xx
/// body reports the parse error, and anything else reports the raw body.
pub fn embeddings_failure(envelope: Option<&str>, status: u16, parse_error: &str, body: &str) -> (r: String)
    requires
        valid_status(status),
    ensures
        r@ == embeddings_failure_text(
            match envelope {
                Some(m) => Some(m@),
                None => None,
            },
            status,
            parse_error@,
            body@,
        ),
{
    match envelope {
        Some(m) => {
            let lower = lowercase(m);
            if contains_text(lower.as_str(), "too large") {
                let mut s = EMBED_TOO_LARGE_PREFIX.to_owned();
                s.append(m);
                s
            } else {
                let mut s = "embeddings request failed (".to_owned();
                let st = status_display(status);
                s.append(st.as_str());
                s.append("): ");
                s.append(m);
                s
            }
        },
        None => {
            if status_is_success(status) {
                let mut s = "failed to parse embeddings response (".to_owned();
                let st = status_display(status);
                s.append(st.as_str());
                s.append("): ");
                s.append(parse_error);
                s
            } else {
                returned_text("embeddings request returned ", status, body)
            }
        },
    }
}

/// The result of an embeddings request for `expected_len` inputs, from what parsing
/// its body gave: the items when it parsed as embeddings (else the parse error), and
/// the message of an error envelope when it parsed as one.
pub fn embeddings_outcome<E>(
    parsed: Result<Vec<(Option<usize>, Vec<E>)>, String>,
    envelope: Option<String>,
    status: u16,
    body: &str,
    expected_len: usize,
) -> (r: Result<Vec<Vec<E>>, String>)
    requires
        valid_status(status),
    ensures
        match parsed {
            Ok(items) => r matches Ok(v) && v@.map_values(|e: Vec<E>| e@) == ordered_embeddings(
                items@,
                expected_len as nat,
            ),
            Err(parse_error) => r matches Err(e) && e@ == embeddings_failure_text(
                match envelope {
                    Some(m) => Some(m@),
                    None => None,
                },
                status,
                parse_error@,
                body@,
            ),
        },
{
    match parsed {
        Ok(items) => Ok(order_embeddings(items, expected_len)),
        Err(parse_error) => {
            let e = match &envelope {
                Some(m) => embeddings_failure(Some(m.as_str()), status, parse_error.as_str(), body),
                None => embeddings_failure(None, status, parse_error.as_str(), body),
            };
            Err(e)
        },
    }
}

/// An embeddings error that marks its input as too large: it begins with
/// [`EMBED_TOO_LARGE_PREFIX`].
pub open spec fn marks_too_large(err: Seq<char>) -> bool {
    starts_with_seq(err, EMBED_TOO_LARGE_PREFIX@)
}

/// Whether an embeddings error marks its input as too large.
pub fn is_too_large(err: &str) -> (b: bool)
    ensures
        b == marks_too_large(err@),
{
    starts_with_text(err, EMBED_TOO_LARGE_PREFIX)
}

/// The pause before sending again after attempt `attempt` failed, or `None` when that
/// was the last attempt.
pub fn send_retry_delay_ms(attempt: u32) -> (r: Option<u64>)
    ensures
        r == if attempt < MAX_SEND_ATTEMPTS {
            Some((300 * attempt) as u64)
        } else {
            None::<u64>
        },
{
    if attempt < MAX_SEND_ATTEMPTS {
        Some(300 * attempt as u64)
    } else {
        None
    }
}

/// The error for a model list answered with a non-success status, if it was.
pub fn check_models_status(status: u16, body: &str) -> (r: Result<(), String>)
    requires
        valid_status(status),
    ensures
        match r {
            Ok(()) => is_success_code(status),
            Err(e) => !is_success_code(status) && e@ == returned_message(
                "listing models returned "@,
                status,
                body@,
            ),
        },
{
    if status_is_success(status) {
        Ok(())
    } else {
        Err(returned_text("listing models returned ", status, body))
    }
}

} // verus!

verus! {

// ---------------------------------------------------------------------------
// Laws
// ---------------------------------------------------------------------------

/// A reply without a reasoning block is returned as it came, only trimmed.
pub proof fn lemma_plain_reply_is_only_trimmed(content: Seq<char>)
    requires
        !contains_seq(content, open_tag()),
    ensures
        stripped(content) == trimmed(content),
{
    lemma_contains_find(content, open_tag());
    assert(think_parts(content) == (content, Seq::<char>::empty()));
    let e = Seq::<char>::empty();
    assert(trim_start(e) == e);
    assert(trim_end(e) == e);
}

/// The answer is empty only when the reply said nothing, neither outside nor inside a
/// reasoning block, so a caller can report that rather than show a blank answer.
pub proof fn lemma_empty_answer_means_nothing_said(content: Seq<char>)
    ensures
        stripped(content).len() == 0 <==> (visible_text(content).len() == 0 && reasoning_text(
            content,
        ).len() == 0),
{
}

/// An embeddings error carries the too-large marker exactly when the server's error
/// message, lower-cased, says "too large": a size rejection is always recognised and
/// nothing else is mistaken for one.
pub proof fn lemma_too_large_marker_iff(
    envelope: Option<Seq<char>>,
    status: u16,
    parse_error: Seq<char>,
    body: Seq<char>,
)
    ensures
        marks_too_large(embeddings_failure_text(envelope, status, parse_error, body)) <==> (
        envelope matches Some(m) && contains_seq(lowercase_of(m), "too large"@)),
{
    reveal_strlit("EMBED_TOO_LARGE:");
    reveal_strlit("embeddings request failed (");
    reveal_strlit("failed to parse embeddings response (");
    reveal_strlit("embeddings request returned ");
    let p = EMBED_TOO_LARGE_PREFIX@;
    let t = embeddings_failure_text(envelope, status, parse_error, body);
    assert(marks_too_large(t) == starts_with_seq(t, p));
    if envelope matches Some(m) && contains_seq(lowercase_of(m), "too large"@) {
        let m = envelope->0;
        assert((p + m).subrange(0, p.len() as int) =~= p);
    } else if starts_with_seq(t, p) {
        assert(t.subrange(0, p.len() as int)[0] == t[0]);
        assert(p[0] == 'E');
        match envelope {
            Some(m) => {
                assert(t[0] == "embeddings request failed ("@[0]);
            },
            None => {
                if is_success_code(status) {
                    assert(t[0] == "failed to parse embeddings response ("@[0]);
                } else {
                    assert(t[0] == "embeddings request returned "@[0]);
                }
            },
        }
    }
}

/// A reasoning block opens with `<think>` and closes with `</think>`.
pub proof fn lemma_reasoning_tags()
    ensures
        open_tag() == "<think>"@,
        close_tag() == "</think>"@,
{
    reveal_strlit("<think>");
    reveal_strlit("</think>");
    assert(open_tag() =~= "<think>"@);
    assert(close_tag() =~= "</think>"@);
}

/// The pieces joined in order.
pub open spec fn concat_all(s: Seq<Seq<char>>) -> Seq<char>
    decreases s.len(),
{
    if s.len() == 0 {
        Seq::empty()
    } else {
        s[0] + concat_all(s.drop_first())
    }
}

/// The reply `o[0] <think>t[0]</think> o[1] … <think>t[n-1]</think> o[n]`, for
/// `o.len() == t.len() + 1`.
pub open spec fn closed_blocks(o: Seq<Seq<char>>, t: Seq<Seq<char>>) -> Seq<char>
    decreases t.len(),
{
    if o.len() == 0 {
        Seq::empty()
    } else if t.len() == 0 {
        o[0]
    } else {
        o[0] + open_tag() + t[0] + close_tag() + closed_blocks(o.drop_first(), t.drop_first())
    }
}

/// The reply `o[0] <think>t[0]</think> … o[n-1] <think>t[n-1]`, cut off inside its last
/// block, for `o.len() == t.len() >= 1`.
pub open spec fn unclosed_blocks(o: Seq<Seq<char>>, t: Seq<Seq<char>>) -> Seq<char>
    decreases t.len(),
{
    if o.len() == 0 || t.len() == 0 {
        Seq::empty()
    } else if t.len() == 1 {
        o[0] + open_tag() + t[0]
    } else {
        o[0] + open_tag() + t[0] + close_tag() + unclosed_blocks(o.drop_first(), t.drop_first())
    }
}

/// No outside piece holds an opening tag and no block holds a closing tag.
pub open spec fn well_separated(o: Seq<Seq<char>>, t: Seq<Seq<char>>) -> bool {
    &&& forall|i: int| 0 <= i < o.len() ==> !contains_seq(#[trigger] o[i], open_tag())
    &&& forall|i: int| 0 <= i < t.len() ==> !contains_seq(#[trigger] t[i], close_tag())
}

/// A tag whose first character does not recur in it is first found right after a
/// piece that does not hold it.
proof fn lemma_tag_found_after(x: Seq<char>, p: Seq<char>, rest: Seq<char>)
    requires
        p.len() >= 1,
        forall|j: int| 1 <= j < p.len() ==> #[trigger] p[j] != p[0],
        !contains_seq(x, p),
    ensures
        find_first(x + p + rest, p) == Some(x.len() as int),
{
    let s = x + p + rest;
    let n = x.len() as int;
    assert(s.subrange(n, n + p.len()) =~= p);
    assert(occurs_at(s, p, n));
    assert forall|j: int| 0 <= j < n implies !occurs_at(s, p, j) by {
        if occurs_at(s, p, j) {
            if j + p.len() <= n {
                assert(s.subrange(j, j + p.len()) =~= x.subrange(j, j + p.len()));
                assert(occurs_at(x, p, j));
            } else {
                let k = n - j;
                assert(s.subrange(j, j + p.len())[k] == s[n]);
                assert(s[n] == p[0]);
            }
        }
    }
    lemma_find_from(s, p, 0);
}

proof fn lemma_tags_unbordered()
    ensures
        forall|j: int| 1 <= j < open_tag().len() ==> #[trigger] open_tag()[j] != open_tag()[0],
        forall|j: int| 1 <= j < close_tag().len() ==> #[trigger] close_tag()[j] != close_tag()[0],
{
}

/// A reply made of blocks, all closed: the answer is the text outside the blocks and
/// the reasoning the text inside them, each joined in order.
pub proof fn lemma_think_parts_of_closed_blocks(o: Seq<Seq<char>>, t: Seq<Seq<char>>)
    requires
        o.len() == t.len() + 1,
        well_separated(o, t),
    ensures
        think_parts(closed_blocks(o, t)) == (concat_all(o), concat_all(t)),
        visible_text(closed_blocks(o, t)) == trimmed(concat_all(o)),
        reasoning_text(closed_blocks(o, t)) == trimmed(concat_all(t)),
    decreases t.len(),
{
    lemma_tags_unbordered();
    if t.len() == 0 {
        assert(!contains_seq(o[0], open_tag()));
        lemma_contains_find(o[0], open_tag());
        assert(concat_all(o.drop_first()) == Seq::<char>::empty());
        assert(concat_all(o) =~= o[0]);
    } else {
        let o2 = o.drop_first();
        let t2 = t.drop_first();
        let rest = closed_blocks(o2, t2);
        let s = closed_blocks(o, t);
        let x = o[0];
        let y = t[0];
        assert(!contains_seq(x, open_tag()));
        assert(!contains_seq(y, close_tag()));
        assert(s =~= x + open_tag() + (y + close_tag() + rest));
        lemma_tag_found_after(x, open_tag(), y + close_tag() + rest);
        let after = s.subrange(x.len() + 7int, s.len() as int);
        assert(after =~= y + close_tag() + rest);
        lemma_tag_found_after(y, close_tag(), rest);
        assert(after.subrange(y.len() + 8int, after.len() as int) =~= rest);
        assert(s.subrange(0, x.len() as int) =~= x);
        assert(after.subrange(0, y.len() as int) =~= y);
        assert(well_separated(o2, t2)) by {
            assert forall|i: int| 0 <= i < o2.len() implies !contains_seq(#[trigger] o2[i], open_tag()) by {
                assert(o2[i] == o[i + 1]);
            }
            assert forall|i: int| 0 <= i < t2.len() implies !contains_seq(#[trigger] t2[i], close_tag()) by {
                assert(t2[i] == t[i + 1]);
            }
        }
        lemma_think_parts_of_closed_blocks(o2, t2);
    }
}

/// A reply whose last block was cut off before it closed: the answer is the text
/// outside the blocks and the reasoning the text inside them, the cut-off block
/// running to the end, each joined in order.
pub proof fn lemma_think_parts_of_unclosed_blocks(o: Seq<Seq<char>>, t: Seq<Seq<char>>)
    requires
        o.len() == t.len(),
        t.len() >= 1,
        well_separated(o, t),
    ensures
        think_parts(unclosed_blocks(o, t)) == (concat_all(o), concat_all(t)),
        visible_text(unclosed_blocks(o, t)) == trimmed(concat_all(o)),
        reasoning_text(unclosed_blocks(o, t)) == trimmed(concat_all(t)),
    decreases t.len(),
{
    lemma_tags_unbordered();
    let x = o[0];
    let y = t[0];
    assert(!contains_seq(x, open_tag()));
    assert(!contains_seq(y, close_tag()));
    let s = unclosed_blocks(o, t);
    if t.len() == 1 {
        assert(s =~= x + open_tag() + y);
        lemma_tag_found_after(x, open_tag(), y);
        let after = s.subrange(x.len() + 7int, s.len() as int);
        assert(after =~= y);
        lemma_contains_find(y, close_tag());
        assert(s.subrange(0, x.len() as int) =~= x);
        assert(concat_all(o.drop_first()) == Seq::<char>::empty());
        assert(concat_all(t.drop_first()) == Seq::<char>::empty());
        assert(concat_all(o) =~= x);
        assert(concat_all(t) =~= y);
    } else {
        let o2 = o.drop_first();
        let t2 = t.drop_first();
        let rest = unclosed_blocks(o2, t2);
        assert(s =~= x + open_tag() + (y + close_tag() + rest));
        lemma_tag_found_after(x, open_tag(), y + close_tag() + rest);
        let after = s.subrange(x.len() + 7int, s.len() as int);
        assert(after =~= y + close_tag() + rest);
        lemma_tag_found_after(y, close_tag(), rest);
        assert(after.subrange(y.len() + 8int, after.len() as int) =~= rest);
        assert(s.subrange(0, x.len() as int) =~= x);
        assert(after.subrange(0, y.len() as int) =~= y);
        assert(well_separated(o2, t2)) by {
            assert forall|i: int| 0 <= i < o2.len() implies !contains_seq(#[trigger] o2[i], open_tag()) by {
                assert(o2[i] == o[i + 1]);
            }
            assert forall|i: int| 0 <= i < t2.len() implies !contains_seq(#[trigger] t2[i], close_tag()) by {
                assert(t2[i] == t[i + 1]);
            }
        }
        lemma_think_parts_of_unclosed_blocks(o2, t2);
    }
}

proof fn lemma_order_distinct(models: Seq<RankedModel>, o: Seq<usize>, p: int, q: int)
    requires
        cheapest_first_order(models, o),
        0 <= p < q < o.len(),
    ensures
        o[p] != o[q],
{
    assert(ranks_before(
        rank_of(models, o[p] as int),
        o[p] as int,
        rank_of(models, o[q] as int),
        o[q] as int,
    ));
    if o[p] == o[q] {
        lemma_lex_irreflexive(rank_of(models, o[p] as int).1);
    }
}

proof fn lemma_order_prefix_agrees(models: Seq<RankedModel>, a: Seq<usize>, b: Seq<usize>, p: int)
    requires
        cheapest_first_order(models, a),
        cheapest_first_order(models, b),
        0 <= p <= a.len(),
    ensures
        forall|q: int| 0 <= q < p ==> a[q] == b[q],
    decreases p,
{
    if p > 0 {
        lemma_order_prefix_agrees(models, a, b, p - 1);
        let q = p - 1;
        if a[q] != b[q] {
            let x = b[q];
            let y = a[q];
            assert(a.contains(x));
            let r = choose|r: int| 0 <= r < a.len() && a[r] == x;
            if r < q {
                assert(b[r] == x);
                lemma_order_distinct(models, b, r, q);
            }
            assert(b.contains(y));
            let s = choose|s: int| 0 <= s < b.len() && b[s] == y;
            if s < q {
                assert(a[s] == y);
                lemma_order_distinct(models, a, s, q);
            }
            assert(ranks_before(rank_of(models, y as int), y as int, rank_of(models, x as int), x as int));
            assert(ranks_before(rank_of(models, x as int), x as int, rank_of(models, y as int), y as int));
            lemma_ranks_total(rank_of(models, x as int), x as int, rank_of(models, y as int), y as int);
        }
    }
}

/// The order models are offered in is fully determined by their costs and ids: any two
/// cheapest-first orders of the same models are the same.
pub proof fn lemma_cheapest_first_is_unique(models: Seq<RankedModel>, a: Seq<usize>, b: Seq<usize>)
    requires
        cheapest_first_order(models, a),
        cheapest_first_order(models, b),
    ensures
        a == b,
{
    lemma_order_prefix_agrees(models, a, b, a.len() as int);
    assert(a =~= b);
}


/// The labels that mark a model as unable to answer a chat completion.
proof fn lemma_non_chat_labels_listed(label: Seq<char>)
    ensures
        is_non_chat_label(label) <==> seq![
            "embeddings"@,
            "embedding"@,
            "reranking"@,
            "transcription"@,
            "realtime-transcription"@,
            "tts"@,
            "classification"@,
            "image-generation"@,
            "audio-generation"@,
        ].contains(label),
{
    let listed = seq![
        "embeddings"@,
        "embedding"@,
        "reranking"@,
        "transcription"@,
        "realtime-transcription"@,
        "tts"@,
        "classification"@,
        "image-generation"@,
        "audio-generation"@,
    ];
    if is_non_chat_label(label) {
        if label == "embeddings"@ {
            assert(listed[0] == label);
        } else if label == "embedding"@ {
            assert(listed[1] == label);
        } else if label == "reranking"@ {
            assert(listed[2] == label);
        } else if label == "transcription"@ {
            assert(listed[3] == label);
        } else if label == "realtime-transcription"@ {
            assert(listed[4] == label);
        } else if label == "tts"@ {
            assert(listed[5] == label);
        } else if label == "classification"@ {
            assert(listed[6] == label);
        } else if label == "image-generation"@ {
            assert(listed[7] == label);
        } else {
            assert(listed[8] == label);
        }
    }
    if listed.contains(label) {
        let k = choose|k: int| 0 <= k < listed.len() && listed[k] == label;
        assert(k == 0 || k == 1 || k == 2 || k == 3 || k == 4 || k == 5 || k == 6 || k == 7 || k
            == 8);
    }
}

/// A model is offered for chat exactly when it is not known to be missing and none of
/// its labels, lower-cased, is one of the nine that mark embedding, reranking,
/// transcription, speech, classification, image or audio models; any other label
/// ("hot", "tool-calling", "vision", …) leaves it offered.
pub proof fn lemma_chat_candidates_are_exactly_the_unlisted(
    labels: Seq<Seq<char>>,
    downloaded: Option<bool>,
)
    ensures
        chat_candidate(labels, downloaded) <==> (downloaded != Some(false) && forall|i: int|
            0 <= i < labels.len() ==> !seq![
                "embeddings"@,
                "embedding"@,
                "reranking"@,
                "transcription"@,
                "realtime-transcription"@,
                "tts"@,
                "classification"@,
                "image-generation"@,
                "audio-generation"@,
            ].contains(lowercase_of(#[trigger] labels[i]))),
{
    assert forall|i: int| 0 <= i < labels.len() implies is_non_chat_label(
        lowercase_of(#[trigger] labels[i]),
    ) == seq![
        "embeddings"@,
        "embedding"@,
        "reranking"@,
        "transcription"@,
        "realtime-transcription"@,
        "tts"@,
        "classification"@,
        "image-generation"@,
        "audio-generation"@,
    ].contains(lowercase_of(labels[i])) by {
        lemma_non_chat_labels_listed(lowercase_of(labels[i]));
    }
}

/// `/no_think` goes exactly to models whose lower-cased name contains `qwen3`: the
/// user message gets the line appended then, and is sent unchanged otherwise (a
/// `qwen2.5` model included).
pub proof fn lemma_no_think_exactly_for_qwen3(model: Seq<char>, user: Seq<char>)
    ensures
        takes_no_think(model) <==> contains_seq(lowercase_of(model), seq!['q', 'w', 'e', 'n', '3']),
        (if takes_no_think(model) {
            user + "\n/no_think"@
        } else {
            user
        }) == if contains_seq(lowercase_of(model), seq!['q', 'w', 'e', 'n', '3']) {
            user + seq!['\n', '/', 'n', 'o', '_', 't', 'h', 'i', 'n', 'k']
        } else {
            user
        },
{
    reveal_strlit("qwen3");
    reveal_strlit("\n/no_think");
    assert("qwen3"@ =~= seq!['q', 'w', 'e', 'n', '3']);
    assert("\n/no_think"@ =~= seq!['\n', '/', 'n', 'o', '_', 't', 'h', 'i', 'n', 'k']);
}

/// The offered order is cheapest first; among equal costs, ids in code-point order;
/// among equal costs and ids, the order they came in.
pub proof fn lemma_cheapest_first_sorts_by_cost_then_id(models: Seq<RankedModel>, order: Seq<usize>)
    requires
        cheapest_first_order(models, order),
    ensures
        forall|p: int, q: int|
            #![trigger order[p], order[q]]
            0 <= p < q < order.len() ==> {
                let a = models[order[p] as int];
                let b = models[order[q] as int];
                &&& a.cost_key <= b.cost_key
                &&& a.cost_key == b.cost_key && a.id@ != b.id@ ==> lex_lt(a.id@, b.id@)
                &&& a.cost_key == b.cost_key && a.id@ == b.id@ ==> order[p] < order[q]
            },
        forall|k: usize| k < models.len() ==> #[trigger] order.contains(k),
        order.len() == models.len(),
{
    assert forall|p: int, q: int|
        #![trigger order[p], order[q]]
        0 <= p < q < order.len() implies {
        let a = models[order[p] as int];
        let b = models[order[q] as int];
        &&& a.cost_key <= b.cost_key
        &&& a.cost_key == b.cost_key && a.id@ != b.id@ ==> lex_lt(a.id@, b.id@)
        &&& a.cost_key == b.cost_key && a.id@ == b.id@ ==> order[p] < order[q]
    } by {
        assert(ranks_before(
            rank_of(models, order[p] as int),
            order[p] as int,
            rank_of(models, order[q] as int),
            order[q] as int,
        ));
        let a = models[order[p] as int];
        let b = models[order[q] as int];
        if a.cost_key == b.cost_key && a.id@ != b.id@ && lex_lt(b.id@, a.id@) {
            lemma_lex_total(a.id@, b.id@);
        }
        if a.cost_key == b.cost_key && a.id@ == b.id@ {
            lemma_lex_irreflexive(a.id@);
        }
    }
}

/// Code-point order: a proper prefix comes first, and otherwise the first differing
/// character decides.
pub proof fn lemma_lex_order_by_first_difference(a: Seq<char>, b: Seq<char>, k: int)
    requires
        0 <= k <= a.len(),
        k <= b.len(),
        a.subrange(0, k) == b.subrange(0, k),
    ensures
        k == a.len() && k < b.len() ==> lex_lt(a, b),
        k < a.len() && k < b.len() && a[k] != b[k] ==> (lex_lt(a, b) <==> (a[k] as int) < (
        b[k] as int)),
    decreases k,
{
    if k > 0 {
        assert(a[0] == a.subrange(0, k)[0]);
        assert(b[0] == b.subrange(0, k)[0]);
        assert(a.drop_first().subrange(0, k - 1) =~= a.subrange(0, k).drop_first());
        assert(b.drop_first().subrange(0, k - 1) =~= b.subrange(0, k).drop_first());
        lemma_lex_order_by_first_difference(a.drop_first(), b.drop_first(), k - 1);
        if k < a.len() && k < b.len() {
            assert(a.drop_first()[k - 1] == a[k]);
            assert(b.drop_first()[k - 1] == b[k]);
        }
    }
}

/// Each slot holds the vector of the last item that names it (by its declared index,
/// else its position), and is empty when no item names it; items naming a slot past
/// the expected count are ignored, and there are exactly that many slots.
pub proof fn lemma_embeddings_land_in_named_slots<E>(
    items: Seq<(Option<usize>, Vec<E>)>,
    expected_len: nat,
    k: int,
)
    requires
        0 <= k < expected_len,
    ensures
        ordered_embeddings(items, expected_len).len() == expected_len,
        (exists|j: int|
            #![trigger items[j]]
            0 <= j < items.len() && (match items[j].0 {
                Some(d) => d as int,
                None => j,
            }) == k) || ordered_embeddings(items, expected_len)[k] == Seq::<E>::empty(),
        forall|j: int|
            #![trigger items[j]]
            0 <= j < items.len() && (match items[j].0 {
                Some(d) => d as int,
                None => j,
            }) == k && (forall|l: int|
                j < l < items.len() ==> (match #[trigger] items[l].0 {
                    Some(d) => d as int,
                    None => l,
                }) != k) ==> ordered_embeddings(items, expected_len)[k] == items[j].1@,
{
    lemma_last_for_slot(items, k, items.len() as int);
}

proof fn lemma_last_for_slot<E>(items: Seq<(Option<usize>, Vec<E>)>, k: int, upto: int)
    requires
        0 <= upto <= items.len(),
    ensures
        match last_for_slot(items, k, upto) {
            Some(w) => 0 <= w < upto && slot_of(items[w].0, w) == k && forall|l: int|
                w < l < upto ==> slot_of(#[trigger] items[l].0, l) != k,
            None => forall|l: int| 0 <= l < upto ==> slot_of(#[trigger] items[l].0, l) != k,
        },
    decreases upto,
{
    if upto > 0 {
        lemma_last_for_slot(items, k, upto - 1);
    }
}

/// Every HTTP failure message starts with what failed and ends with what the server
/// said.
pub proof fn lemma_failure_messages_keep_the_detail(prefix: Seq<char>, code: u16, detail: Seq<char>)
    ensures
        starts_with_seq(returned_message(prefix, code, detail), prefix),
        ends_with_seq(returned_message(prefix, code, detail), detail),
{
    let m = returned_message(prefix, code, detail);
    assert(m.subrange(0, prefix.len() as int) =~= prefix);
    assert(m.subrange(m.len() - detail.len(), m.len() as int) =~= detail);
}

/// An embeddings failure always keeps what went wrong: the server's error message
/// when it sent one, else the parse error for a 2xx reply, else the raw body.
pub proof fn lemma_embeddings_failure_keeps_the_cause(
    envelope: Option<Seq<char>>,
    status: u16,
    parse_error: Seq<char>,
    body: Seq<char>,
)
    ensures
        ({
            let t = embeddings_failure_text(envelope, status, parse_error, body);
            match envelope {
                Some(m) => ends_with_seq(t, m),
                None => if 200 <= status && status < 300 {
                    ends_with_seq(t, parse_error)
                } else {
                    ends_with_seq(t, body)
                },
            }
        }),
{
    let t = embeddings_failure_text(envelope, status, parse_error, body);
    match envelope {
        Some(m) => {
            assert(t.subrange(t.len() - m.len(), t.len() as int) =~= m);
        },
        None => {
            if 200 <= status && status < 300 {
                assert(t.subrange(t.len() - parse_error.len(), t.len() as int) =~= parse_error);
            } else {
                assert(t.subrange(t.len() - body.len(), t.len() as int) =~= body);
            }
        },
    }
}

} // verus!
