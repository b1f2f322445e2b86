//! Decisions around the local model runtime: its endpoints, which loaded models are
//! ours, when the vision model falls back, and how long a caller waits on a worker.
//!
//! The HTTP calls and the worker threads live in the application; they hand the
//! outcomes to these functions and do what they return.

use vstd::prelude::*;
use crate::text::{
    append_chars, contains_chars, contains_seq, has_prefix, starts_with_chars, str_chars,
    string_from_chars,
};

verus! {

/// Where the runtime listens by default.
pub const OLLAMA_BASE_URL: &'static str = "http://127.0.0.1:11434";

/// Wall-clock budget, in seconds, for one embedding request.
pub const EMBED_TIMEOUT_SECS: u64 = 180;

/// Wall-clock budget, in seconds, for one image description.
pub const VISION_TIMEOUT_SECS: u64 = 180;

/// The models this application loads, by name prefix.
pub open spec fn known_models() -> Seq<Seq<char>> {
    seq!["nomic-embed-text-v2-moe"@, "qwen2.5vl:7b"@, "llava:7b"@]
}

fn known_models_exec() -> (r: Vec<Vec<char>>)
    ensures
        r@.map_values(|v: Vec<char>| v@) == known_models(),
{
    let v: Vec<Vec<char>> = vec![
        str_chars("nomic-embed-text-v2-moe"),
        str_chars("qwen2.5vl:7b"),
        str_chars("llava:7b"),
    ];
    proof {
        assert(v@.map_values(|v: Vec<char>| v@) =~= known_models());
    }
    v
}

/// The embedding model.
pub fn embed_model() -> (r: String)
    ensures
        r@ == known_models()[0],
{
    string_from_chars(str_chars("nomic-embed-text-v2-moe"))
}

/// The vision model tried first.
pub fn primary_vision_model() -> (r: String)
    ensures
        r@ == known_models()[1],
{
    string_from_chars(str_chars("qwen2.5vl:7b"))
}

/// The vision model used when the first is not installed.
pub fn fallback_vision_model() -> (r: String)
    ensures
        r@ == known_models()[2],
{
    string_from_chars(str_chars("llava:7b"))
}

/// The URL of an API endpoint: the base URL followed by the endpoint's path.
pub fn api_url(base: &str, endpoint: &str) -> (r: String)
    ensures
        r@ == base@ + endpoint@,
{
    let mut u = str_chars(base);
    let e = str_chars(endpoint);
    append_chars(&mut u, &e);
    string_from_chars(u)
}

/// Some name in `names` starts with `model`.
pub open spec fn any_has_prefix(names: Seq<Seq<char>>, model: Seq<char>) -> bool {
    exists|k: int| 0 <= k < names.len() && has_prefix(#[trigger] names[k], model)
}

/// A model counts as available when some listed name starts with its name (tags such as
/// `:latest` follow the name).
pub fn model_is_listed(names: &Vec<String>, model: &str) -> (r: bool)
    ensures
        r == any_has_prefix(names@.map_values(|s: String| s@), model@),
{
    let ghost nv = names@.map_values(|s: String| s@);
    let m = str_chars(model);
    let mut k: usize = 0;
    while k < names.len()
        invariant
            k <= names.len(),
            nv == names@.map_values(|s: String| s@),
            m@ == model@,
            forall|j: int| 0 <= j < k ==> !has_prefix(#[trigger] nv[j], model@),
        decreases names.len() - k,
    {
        let n = str_chars(names[k].as_str());
        if starts_with_chars(&n, &m) {
            proof {
                assert(has_prefix(nv[k as int], model@));
            }
            return true;
        }
        k = k + 1;
    }
    false
}

/// The loaded models that belong to this application, in the order listed.
pub open spec fn stale_of(names: Seq<Seq<char>>) -> Seq<Seq<char>>
    decreases names.len(),
{
    if names.len() == 0 {
        seq![]
    } else if any_has_prefix_of(names.last(), known_models()) {
        stale_of(names.drop_last()).push(names.last())
    } else {
        stale_of(names.drop_last())
    }
}

/// `name` starts with one of `prefixes`.
pub open spec fn any_has_prefix_of(name: Seq<char>, prefixes: Seq<Seq<char>>) -> bool {
    exists|k: int| 0 <= k < prefixes.len() && has_prefix(name, #[trigger] prefixes[k])
}

/// Which of the models loaded in the runtime to unload after indexing: those whose name
/// starts with one of this application's models; others are left alone.
pub fn stale_models(loaded: &Vec<String>) -> (r: Vec<String>)
    ensures
        r@.map_values(|s: String| s@) == stale_of(loaded@.map_values(|s: String| s@)),
{
    let ghost lv = loaded@.map_values(|s: String| s@);
    let known = known_models_exec();
    let mut out: Vec<String> = Vec::new();
    let mut k: usize = 0;
    while k < loaded.len()
        invariant
            k <= loaded.len(),
            lv == loaded@.map_values(|s: String| s@),
            known@.map_values(|v: Vec<char>| v@) == known_models(),
            out@.map_values(|s: String| s@) == stale_of(lv.subrange(0, k as int)),
        decreases loaded.len() - k,
    {
        let n = str_chars(loaded[k].as_str());
        let mut hit = false;
        let mut i: usize = 0;
        while i < known.len()
            invariant
                i <= known.len(),
                known@.map_values(|v: Vec<char>| v@) == known_models(),
                n@ == lv[k as int],
                hit == exists|u: int| 0 <= u < i && has_prefix(n@, #[trigger] known_models()[u]),
            decreases known.len() - i,
        {
            if starts_with_chars(&n, &known[i]) {
                proof {
                    assert(has_prefix(n@, known_models()[i as int]));
                }
                hit = true;
            }
            i = i + 1;
        }
        let ghost before = out@.map_values(|s: String| s@);
        proof {
            let next = lv.subrange(0, k + 1);
            assert(next.drop_last() =~= lv.subrange(0, k as int));
            assert(next.last() == lv[k as int]);
            assert(hit == any_has_prefix_of(lv[k as int], known_models()));
        }
        if hit {
            out.push(loaded[k].clone());
            proof {
                assert(out@.map_values(|s: String| s@) =~= before.push(lv[k as int]));
            }
        }
        k = k + 1;
    }
    proof {
        assert(lv.subrange(0, loaded.len() as int) =~= lv);
    }
    out
}

/// An image as the vision model receives it: its bytes in standard padded base64.
pub fn image_payload(bytes: &[u8]) -> (r: String)
    ensures
        r@ == crate::search::base64_encode(bytes@),
        crate::search::base64_decode(r@) == Some(bytes@),
{
    crate::search::b64_encode(bytes)
}

/// An error message from the runtime saying that the requested model is not installed.
pub open spec fn says_model_missing(msg: Seq<char>) -> bool {
    contains_seq(msg, "model"@) && contains_seq(msg, "not found"@)
}

/// Whether a failed description is retried with the fallback vision model: only when the
/// runtime reported the first model as not found.
pub fn retry_with_fallback(error_message: &str) -> (r: bool)
    ensures
        r == says_model_missing(error_message@),
{
    let m = str_chars(error_message);
    let a = str_chars("model");
    let b = str_chars("not found");
    contains_chars(&m, &a) && contains_chars(&m, &b)
}

/// What one wait on a worker's result channel brought, or that cancellation was seen
/// before waiting.
pub enum WaitEvent {
    /// Cancellation was requested.
    CancelRequested,
    /// The worker sent its result.
    Received,
    /// A one-second wait passed without a result.
    TimedOut,
    /// The worker ended without sending a result.
    Disconnected,
}

/// What the caller does after a wait.
pub enum WaitStep {
    /// Stop with the cancellation error.
    Cancel,
    /// Return what the worker sent.
    Deliver,
    /// Wait another second; this many seconds have passed.
    KeepWaiting { elapsed_secs: u64 },
    /// Stop with a timeout error: the budget is spent.
    GiveUp,
    /// Stop with an error: the worker is gone.
    Abandon,
}

/// One step of a bounded wait: cancellation wins, a result is delivered, a worker that
/// vanished is abandoned, and after `timeout_secs` one-second waits the caller gives up.
pub fn wait_step(event: WaitEvent, elapsed_secs: u64, timeout_secs: u64) -> (r: WaitStep)
    requires
        elapsed_secs < u64::MAX,
    ensures
        match event {
            WaitEvent::CancelRequested => r is Cancel,
            WaitEvent::Received => r is Deliver,
            WaitEvent::Disconnected => r is Abandon,
            WaitEvent::TimedOut => if elapsed_secs + 1 >= timeout_secs {
                r is GiveUp
            } else {
                r == WaitStep::KeepWaiting { elapsed_secs: (elapsed_secs + 1) as u64 }
            },
        },
{
    match event {
        WaitEvent::CancelRequested => WaitStep::Cancel,
        WaitEvent::Received => WaitStep::Deliver,
        WaitEvent::Disconnected => WaitStep::Abandon,
        WaitEvent::TimedOut => {
            let elapsed = elapsed_secs + 1;
            if elapsed >= timeout_secs {
                WaitStep::GiveUp
            } else {
                WaitStep::KeepWaiting { elapsed_secs: elapsed }
            }
        },
    }
}

// ── unloading ───────────────────────────────────────────────────────────────

/// After indexing, a loaded model is unloaded exactly when it is one of this
/// application's models: the embedding model, the primary vision model or the fallback
/// vision model (by name prefix, so tagged variants count too); every other loaded model
/// is left alone.
pub proof fn lemma_unloads_exactly_our_models(names: Seq<Seq<char>>, n: Seq<char>)
    ensures
        stale_of(names).contains(n) <==> names.contains(n) && (has_prefix(
            n,
            "nomic-embed-text-v2-moe"@,
        ) || has_prefix(n, "qwen2.5vl:7b"@) || has_prefix(n, "llava:7b"@)),
    decreases names.len(),
{
    let ours = has_prefix(n, "nomic-embed-text-v2-moe"@) || has_prefix(n, "qwen2.5vl:7b"@)
        || has_prefix(n, "llava:7b"@);
    let km = known_models();
    assert(km[0] == "nomic-embed-text-v2-moe"@ && km[1] == "qwen2.5vl:7b"@ && km[2] == "llava:7b"@);
    assert(any_has_prefix_of(n, km) <==> ours) by {
        if ours {
            if has_prefix(n, km[0]) {
            } else if has_prefix(n, km[1]) {
            } else {
                assert(has_prefix(n, km[2]));
            }
        }
    }
    if names.len() > 0 {
        let d = names.drop_last();
        let x = names.last();
        lemma_unloads_exactly_our_models(d, n);
        let q = stale_of(d);
        if names.contains(n) {
            let m = choose|m: int| 0 <= m < names.len() && names[m] == n;
            if m < d.len() {
                assert(d[m] == n);
            }
        }
        if d.contains(n) {
            let m = choose|m: int| 0 <= m < d.len() && d[m] == n;
            assert(names[m] == n);
        }
        if n == x {
            assert(names[names.len() - 1] == n);
        }
        if any_has_prefix_of(x, km) {
            assert(stale_of(names) == q.push(x));
            if q.push(x).contains(n) && !q.contains(n) {
                let m = choose|m: int| 0 <= m < q.len() + 1 && q.push(x)[m] == n;
                assert(n == x);
            }
            if q.contains(n) {
                let m = choose|m: int| 0 <= m < q.len() && q[m] == n;
                assert(q.push(x)[m] == n);
            }
            if n == x {
                assert(q.push(x)[q.len() as int] == n);
            }
        }
    }
}

} // verus!
