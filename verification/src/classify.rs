//! The single-pass token classifier: its mathematical model, the verified
//! scan, and the laws the scan obeys.

use vstd::prelude::*;

use crate::prompt::Parameters;
use crate::prompt::Prompt;
use crate::prompt::PromptError;

verus! {

/// A token opens a parameter exactly when its text begins with the prefix
/// character `-`; the test is purely textual.
pub open spec fn is_param_token(t: Seq<char>) -> bool {
    t.len() > 0 && t[0] == '-'
}

/// The scan state after some prefix of the tokens: the positional arguments
/// collected so far, the parameters already flushed into the mapping, and the
/// parameter still collecting values, if one is open.
pub type ScanState = (Seq<Seq<char>>, Map<Seq<char>, Seq<Seq<char>>>, Option<
    (Seq<char>, Seq<Seq<char>>),
>);

/// Close the open parameter, if any, into the mapping.
pub open spec fn flush(
    params: Map<Seq<char>, Seq<Seq<char>>>,
    active: Option<(Seq<char>, Seq<Seq<char>>)>,
) -> Map<Seq<char>, Seq<Seq<char>>> {
    match active {
        Some(p) => params.insert(p.0, p.1),
        None => params,
    }
}

/// One step of the scan: a parameter token flushes the open parameter and
/// opens a new one named by its full text; any other token goes to the open
/// parameter's values, or to the positional arguments when none is open.
pub open spec fn scan_step(st: ScanState, t: Seq<char>) -> ScanState {
    if is_param_token(t) {
        (st.0, flush(st.1, st.2), Some((t, Seq::<Seq<char>>::empty())))
    } else {
        match st.2 {
            None => (st.0.push(t), st.1, st.2),
            Some(p) => (st.0, st.1, Some((p.0, p.1.push(t)))),
        }
    }
}

/// The scan state after all of `tokens`, before the final flush.
pub open spec fn scan(tokens: Seq<Seq<char>>) -> ScanState
    decreases tokens.len(),
{
    if tokens.len() == 0 {
        (Seq::<Seq<char>>::empty(), Map::<Seq<char>, Seq<Seq<char>>>::empty(), None::<
            (Seq<char>, Seq<Seq<char>>),
        >)
    } else {
        scan_step(scan(tokens.drop_last()), tokens.last())
    }
}

/// The positional arguments of a classified token sequence.
pub open spec fn positional_of(tokens: Seq<Seq<char>>) -> Seq<Seq<char>> {
    scan(tokens).0
}

/// The parameter mapping of a classified token sequence, after the final
/// flush.
pub open spec fn parameters_of(tokens: Seq<Seq<char>>) -> Map<Seq<char>, Seq<Seq<char>>> {
    flush(scan(tokens).1, scan(tokens).2)
}

/// What a successful classification of `tokens` returns: the first token is
/// the program name; the rest are partitioned into positional arguments and
/// parameters; each optional field is present exactly when non-empty.
pub open spec fn classifies(tokens: Seq<Seq<char>>, p: Prompt) -> bool {
    let rest = tokens.drop_first();
    &&& tokens.len() > 0
    &&& p.program_name@ == tokens[0]
    &&& match p.arguments {
        Some(arguments) => arguments.deep_view() == positional_of(rest) && arguments@.len() > 0,
        None => positional_of(rest).len() == 0,
    }
    &&& match p.parameters {
        Some(parameters) => parameters.wf() && parameters@ == parameters_of(rest) && parameters@
            != Map::<Seq<char>, Seq<Seq<char>>>::empty(),
        None => parameters_of(rest) == Map::<Seq<char>, Seq<Seq<char>>>::empty(),
    }
}

/// The least index of a parameter token strictly after position `i`, or the
/// length when no parameter token follows `i`.
pub open spec fn next_param_index(tokens: Seq<Seq<char>>, i: int) -> int
    decreases tokens.len(),
{
    if tokens.len() == 0 || tokens.len() as int <= i + 1 {
        tokens.len() as int
    } else {
        let p = next_param_index(tokens.drop_last(), i);
        if p < tokens.len() - 1 {
            p
        } else if is_param_token(tokens.last()) {
            tokens.len() - 1
        } else {
            tokens.len() as int
        }
    }
}

/// The first parameter token's index, or the length when there is none.
pub open spec fn first_param_index(tokens: Seq<Seq<char>>) -> int {
    next_param_index(tokens, -1)
}

/// The greatest index of a parameter token, or `-1` when there is none.
pub open spec fn last_param_index(tokens: Seq<Seq<char>>) -> int
    decreases tokens.len(),
{
    if tokens.len() == 0 {
        -1
    } else if is_param_token(tokens.last()) {
        tokens.len() - 1
    } else {
        last_param_index(tokens.drop_last())
    }
}

/// `next_param_index(tokens, i)` is the least parameter position after `i`.
pub proof fn lemma_next_param_index(tokens: Seq<Seq<char>>, i: int)
    requires
        -1 <= i,
    ensures
        i + 1 <= next_param_index(tokens, i) || tokens.len() as int <= i + 1,
        next_param_index(tokens, i) <= tokens.len(),
        next_param_index(tokens, i) < tokens.len() ==> is_param_token(
            tokens[next_param_index(tokens, i)],
        ),
        forall|j: int|
            i < j < next_param_index(tokens, i) ==> !is_param_token(#[trigger] tokens[j]),
    decreases tokens.len(),
{
    if tokens.len() == 0 || tokens.len() as int <= i + 1 {
    } else {
        lemma_next_param_index(tokens.drop_last(), i);
        assert(forall|j: int|
            0 <= j < tokens.len() - 1 ==> #[trigger] tokens[j] == tokens.drop_last()[j]);
    }
}

/// `last_param_index(tokens)` is the greatest parameter position.
pub proof fn lemma_last_param_index(tokens: Seq<Seq<char>>)
    ensures
        -1 <= last_param_index(tokens) < tokens.len(),
        last_param_index(tokens) >= 0 ==> is_param_token(tokens[last_param_index(tokens)]),
        forall|j: int|
            last_param_index(tokens) < j < tokens.len() ==> !is_param_token(#[trigger] tokens[j]),
    decreases tokens.len(),
{
    if tokens.len() == 0 {
    } else if is_param_token(tokens.last()) {
    } else {
        lemma_last_param_index(tokens.drop_last());
        assert(forall|j: int|
            0 <= j < tokens.len() - 1 ==> #[trigger] tokens[j] == tokens.drop_last()[j]);
    }
}

/// How the scan state relates to the token positions: the positional
/// arguments are the tokens before the first parameter token; the open
/// parameter is the last parameter token with everything after it; and the
/// flushed mapping holds, for each parameter name seen before the last
/// parameter token, the values that followed the name's latest such
/// occurrence.
pub proof fn lemma_scan(tokens: Seq<Seq<char>>)
    ensures
        scan(tokens).0 == tokens.take(first_param_index(tokens)),
        (scan(tokens).2 is None) <==> last_param_index(tokens) == -1,
        last_param_index(tokens) >= 0 ==> scan(tokens).2 == Some(
            (
                tokens[last_param_index(tokens)],
                tokens.subrange(last_param_index(tokens) + 1, tokens.len() as int),
            ),
        ),
        forall|k: Seq<char>| #[trigger] scan(tokens).1.contains_key(k) <==> exists|j: int|
            0 <= j < last_param_index(tokens) && tokens[j] == k && is_param_token(k),
        forall|j: int|
            {
                &&& 0 <= j < last_param_index(tokens)
                &&& is_param_token(#[trigger] tokens[j])
                &&& forall|j2: int| j < j2 < last_param_index(tokens) ==> tokens[j2] != tokens[j]
            } ==> scan(tokens).1[tokens[j]] == tokens.subrange(
                j + 1,
                next_param_index(tokens, j),
            ),
    decreases tokens.len(),
{
    if tokens.len() == 0 {
        return ;
    }
    let t = tokens.drop_last();
    let last = tokens.last();
    let n = tokens.len() as int;
    lemma_scan(t);
    lemma_last_param_index(t);
    lemma_next_param_index(t, -1);
    let st = scan(t);
    let big = scan(tokens);
    let bl = last_param_index(tokens);
    let tl = last_param_index(t);
    assert(forall|j: int| 0 <= j < n - 1 ==> #[trigger] tokens[j] == t[j]);
    if is_param_token(last) {
        assert(bl == n - 1);
        // The open parameter is the final token with no values yet.
        assert(Seq::<Seq<char>>::empty() =~= tokens.subrange(n, n));
        // Positional arguments are unchanged.
        assert(first_param_index(tokens) == if first_param_index(t) < n - 1 {
            first_param_index(t)
        } else {
            n - 1
        });
        if first_param_index(t) < n - 1 {
            assert(tokens.take(first_param_index(t)) =~= t.take(first_param_index(t)));
        } else {
            assert(first_param_index(t) == n - 1);
            assert(tokens.take(n - 1) =~= t.take(n - 1));
        }
        // The old open parameter, if any, is flushed over the mapping.
        assert(big.1 == flush(st.1, st.2));
        assert forall|k: Seq<char>| #[trigger] big.1.contains_key(k) <==> exists|j: int|
            0 <= j < bl && tokens[j] == k && is_param_token(k) by {
            if big.1.contains_key(k) {
                if st.2 is Some && tl >= 0 && k == t[tl] {
                    assert(tokens[tl] == k && is_param_token(k));
                } else {
                    assert(st.1.contains_key(k));
                    let j = choose|j: int| 0 <= j < tl && t[j] == k && is_param_token(k);
                    assert(tokens[j] == k);
                }
            }
            if exists|j: int| 0 <= j < bl && tokens[j] == k && is_param_token(k) {
                let j = choose|j: int| 0 <= j < bl && tokens[j] == k && is_param_token(k);
                assert(t[j] == k);
                assert(j <= tl);
                if j == tl {
                    assert(st.2 == Some((t[tl], t.subrange(tl + 1, n - 1))));
                    assert(big.1.contains_key(k));
                } else {
                    assert(st.1.contains_key(k));
                }
            }
        }
        assert forall|j: int|
            {
                &&& 0 <= j < bl
                &&& is_param_token(#[trigger] tokens[j])
                &&& forall|j2: int| j < j2 < bl ==> tokens[j2] != tokens[j]
            } implies big.1[tokens[j]] == tokens.subrange(j + 1, next_param_index(tokens, j)) by {
            assert(t[j] == tokens[j]);
            assert(j <= tl);
            lemma_next_param_index(t, j);
            lemma_next_param_index(tokens, j);
            if j == tl {
                // The winner is the parameter the final flush closes.
                assert(st.2 == Some((t[tl], t.subrange(tl + 1, n - 1))));
                assert(big.1[tokens[j]] == t.subrange(tl + 1, n - 1));
                assert(forall|j2: int| tl < j2 < n - 1 ==> !is_param_token(#[trigger] tokens[j2]));
                assert(next_param_index(tokens, j) == n - 1) by {
                    if next_param_index(tokens, j) < n - 1 {
                        assert(is_param_token(tokens[next_param_index(tokens, j)]));
                    }
                    if next_param_index(tokens, j) == n {
                        assert(!is_param_token(tokens[n - 1]));
                    }
                }
                assert(t.subrange(tl + 1, n - 1) =~= tokens.subrange(j + 1, n - 1));
            } else {
                // The winner sits before the last parameter token, so it was
                // already flushed with its values.
                assert(tl < n - 1);
                assert(tokens[tl] == t[tl]);
                assert(is_param_token(tokens[tl]));
                assert(tokens[tl] != tokens[j]);
                assert(st.2 == Some((t[tl], t.subrange(tl + 1, n - 1))));
                assert(big.1[tokens[j]] == st.1[t[j]]);
                assert(forall|j2: int| j < j2 < tl ==> t[j2] != t[j]);
                assert(st.1[t[j]] == t.subrange(j + 1, next_param_index(t, j)));
                // The next parameter token after the winner is the same in
                // both sequences.
                assert(next_param_index(t, j) <= tl) by {
                    if next_param_index(t, j) > tl {
                        assert(!is_param_token(t[tl]));
                    }
                }
                assert(next_param_index(tokens, j) == next_param_index(t, j));
                assert(t.subrange(j + 1, next_param_index(t, j)) =~= tokens.subrange(
                    j + 1,
                    next_param_index(tokens, j),
                ));
            }
        }
    } else {
        assert(bl == tl);
        assert(big.1 == st.1);
        match st.2 {
            None => {
                assert(tl == -1);
                // No parameter token anywhere, so the new token is positional.
                assert(first_param_index(t) == n - 1) by {
                    if first_param_index(t) < n - 1 {
                        assert(is_param_token(t[first_param_index(t)]));
                    }
                }
                assert(first_param_index(tokens) == n);
                assert(t.take(n - 1) =~= t);
                assert(big.0 == st.0.push(last));
                assert(tokens.take(n) =~= t.push(last));
                // The flushed mapping is empty of keys on both sides.
                assert(forall|k: Seq<char>| !(#[trigger] big.1.contains_key(k)));
            },
            Some(p) => {
                assert(tl >= 0);
                // The new token joins the open parameter's values.
                assert(st.2 == Some((t[tl], t.subrange(tl + 1, n - 1))));
                assert(tokens[tl] == t[tl]);
                assert(t.subrange(tl + 1, n - 1).push(last) =~= tokens.subrange(tl + 1, n));
                // Positional arguments are unchanged.
                assert(first_param_index(t) <= tl) by {
                    if first_param_index(t) > tl {
                        assert(!is_param_token(t[tl]));
                    }
                }
                assert(first_param_index(tokens) == first_param_index(t));
                assert(tokens.take(first_param_index(t)) =~= t.take(first_param_index(t)));
                // The flushed mapping and its keys are unchanged.
                assert forall|k: Seq<char>| #[trigger] big.1.contains_key(k) <==> exists|j: int|
                    0 <= j < bl && tokens[j] == k && is_param_token(k) by {
                    if big.1.contains_key(k) {
                        let j = choose|j: int| 0 <= j < tl && t[j] == k && is_param_token(k);
                        assert(tokens[j] == k);
                    }
                    if exists|j: int| 0 <= j < bl && tokens[j] == k && is_param_token(k) {
                        let j = choose|j: int| 0 <= j < bl && tokens[j] == k && is_param_token(k);
                        assert(t[j] == k);
                    }
                }
                assert forall|j: int|
                    {
                        &&& 0 <= j < bl
                        &&& is_param_token(#[trigger] tokens[j])
                        &&& forall|j2: int| j < j2 < bl ==> tokens[j2] != tokens[j]
                    } implies big.1[tokens[j]] == tokens.subrange(
                    j + 1,
                    next_param_index(tokens, j),
                ) by {
                    assert(t[j] == tokens[j]);
                    lemma_next_param_index(t, j);
                    lemma_next_param_index(tokens, j);
                    assert(forall|j2: int| j < j2 < tl ==> t[j2] != t[j]);
                    assert(st.1[t[j]] == t.subrange(j + 1, next_param_index(t, j)));
                    assert(next_param_index(t, j) <= tl) by {
                        if next_param_index(t, j) > tl {
                            assert(!is_param_token(t[tl]));
                        }
                    }
                    assert(next_param_index(tokens, j) == next_param_index(t, j));
                    assert(t.subrange(j + 1, next_param_index(t, j)) =~= tokens.subrange(
                        j + 1,
                        next_param_index(tokens, j),
                    ));
                }
            },
        }
    }
}

/// Every token that does not begin with `-` and stands before the first
/// `-`-prefixed token is a positional argument, and the positional arguments
/// are exactly those tokens in their original order.
pub proof fn lemma_positional_prefix(tokens: Seq<Seq<char>>)
    ensures
        positional_of(tokens) == tokens.take(first_param_index(tokens)),
        0 <= first_param_index(tokens) <= tokens.len(),
        forall|j: int|
            0 <= j < first_param_index(tokens) ==> !is_param_token(#[trigger] tokens[j]),
        first_param_index(tokens) < tokens.len() ==> is_param_token(
            tokens[first_param_index(tokens)],
        ),
{
    lemma_scan(tokens);
    lemma_next_param_index(tokens, -1);
}

/// A name is mapped exactly when some token carries it, and such a name is
/// always `-`-prefixed.
pub proof fn lemma_parameter_names(tokens: Seq<Seq<char>>, k: Seq<char>)
    ensures
        parameters_of(tokens).contains_key(k) <==> exists|j: int|
            0 <= j < tokens.len() && #[trigger] tokens[j] == k && is_param_token(k),
{
    lemma_scan(tokens);
    lemma_last_param_index(tokens);
    let bl = last_param_index(tokens);
    if parameters_of(tokens).contains_key(k) {
        if bl >= 0 && k == tokens[bl] {
        } else {
            assert(scan(tokens).1.contains_key(k));
            let j = choose|j: int| 0 <= j < bl && tokens[j] == k && is_param_token(k);
            assert(tokens[j] == k && is_param_token(k));
        }
    }
    if exists|j: int| 0 <= j < tokens.len() && #[trigger] tokens[j] == k && is_param_token(k) {
        let j = choose|j: int| 0 <= j < tokens.len() && tokens[j] == k && is_param_token(k);
        assert(j <= bl);
        if j < bl {
            assert(scan(tokens).1.contains_key(k));
        }
    }
}

/// The values attached to a parameter name are the tokens after its latest
/// occurrence, in order, up to the next `-`-prefixed token or the end; the
/// values any earlier occurrence collected do not survive.
pub proof fn lemma_parameter_values(tokens: Seq<Seq<char>>, j: int)
    requires
        0 <= j < tokens.len(),
        is_param_token(tokens[j]),
        forall|j2: int| j < j2 < tokens.len() ==> tokens[j2] != tokens[j],
    ensures
        parameters_of(tokens).contains_key(tokens[j]),
        parameters_of(tokens)[tokens[j]] == tokens.subrange(j + 1, next_param_index(tokens, j)),
        j + 1 <= next_param_index(tokens, j) <= tokens.len(),
        forall|j2: int|
            j < j2 < next_param_index(tokens, j) ==> !is_param_token(#[trigger] tokens[j2]),
        next_param_index(tokens, j) < tokens.len() ==> is_param_token(
            tokens[next_param_index(tokens, j)],
        ),
{
    lemma_scan(tokens);
    lemma_last_param_index(tokens);
    lemma_next_param_index(tokens, j);
    let bl = last_param_index(tokens);
    let n = tokens.len() as int;
    assert(j <= bl);
    if j == bl {
        assert(parameters_of(tokens)[tokens[j]] == tokens.subrange(bl + 1, n));
        assert(next_param_index(tokens, j) == n) by {
            if next_param_index(tokens, j) < n {
                assert(is_param_token(tokens[next_param_index(tokens, j)]));
            }
        }
    } else {
        assert(tokens[bl] != tokens[j]);
        assert(scan(tokens).1[tokens[j]] == tokens.subrange(j + 1, next_param_index(tokens, j)));
        assert(scan(tokens).1.contains_key(tokens[j]));
    }
}

/// The mapping is empty exactly when no token begins with `-`.
pub proof fn lemma_parameters_presence(tokens: Seq<Seq<char>>)
    ensures
        parameters_of(tokens) == Map::<Seq<char>, Seq<Seq<char>>>::empty() <==> forall|j: int|
            0 <= j < tokens.len() ==> !is_param_token(#[trigger] tokens[j]),
{
    lemma_scan(tokens);
    lemma_last_param_index(tokens);
    let bl = last_param_index(tokens);
    if bl >= 0 {
        assert(parameters_of(tokens).contains_key(tokens[bl]));
        assert(!Map::<Seq<char>, Seq<Seq<char>>>::empty().contains_key(tokens[bl]));
    } else {
        assert(forall|k: Seq<char>| !(#[trigger] parameters_of(tokens).contains_key(k)));
        assert(parameters_of(tokens) =~= Map::<Seq<char>, Seq<Seq<char>>>::empty());
    }
}

/// Classification is a pure function of the token sequence: two prompts that
/// classify the same tokens agree field for field, apart from the piped
/// content, which is not derived from the tokens.
pub proof fn lemma_classification_deterministic(tokens: Seq<Seq<char>>, p1: Prompt, p2: Prompt)
    requires
        classifies(tokens, p1),
        classifies(tokens, p2),
    ensures
        p1.program_name@ == p2.program_name@,
        p1.arguments is Some <==> p2.arguments is Some,
        p1.arguments is Some ==> p1.arguments.unwrap().deep_view()
            == p2.arguments.unwrap().deep_view(),
        p1.parameters is Some <==> p2.parameters is Some,
        p1.parameters is Some ==> p1.parameters.unwrap()@ == p2.parameters.unwrap()@,
{
}

/// `arguments` is absent exactly when no positional token was found (the
/// sequence past the program name is empty or opens with a parameter token),
/// `parameters` is absent exactly when no `-`-prefixed token was found, and
/// neither field is ever present as an empty container.
pub proof fn lemma_presence_absence(tokens: Seq<Seq<char>>, p: Prompt)
    requires
        classifies(tokens, p),
    ensures
        (p.arguments is None) <==> (tokens.len() == 1 || is_param_token(tokens[1])),
        (p.parameters is None) <==> (forall|j: int|
            1 <= j < tokens.len() ==> !is_param_token(#[trigger] tokens[j])),
        p.arguments matches Some(arguments) ==> arguments@.len() > 0,
        p.parameters matches Some(parameters) ==> parameters@ != Map::<
            Seq<char>,
            Seq<Seq<char>>,
        >::empty(),
{
    let rest = tokens.drop_first();
    lemma_positional_prefix(rest);
    lemma_parameters_presence(rest);
    assert(forall|j: int| 0 <= j < rest.len() ==> #[trigger] rest[j] == tokens[j + 1]);
    assert((positional_of(rest).len() == 0) <==> first_param_index(rest) == 0);
    if rest.len() > 0 && !is_param_token(tokens[1]) {
        assert(!is_param_token(rest[0]));
        assert(first_param_index(rest) != 0);
    }
    if rest.len() > 0 && is_param_token(tokens[1]) {
        assert(is_param_token(rest[0]));
        assert(first_param_index(rest) == 0) by {
            if first_param_index(rest) > 0 {
                assert(!is_param_token(rest[0]));
            }
        }
    }
    if rest.len() == 0 {
        assert(first_param_index(rest) == 0);
    }
    if p.parameters is None {
        assert forall|j: int| 1 <= j < tokens.len() implies !is_param_token(
            #[trigger] tokens[j],
        ) by {
            assert(tokens[j] == rest[j - 1]);
        }
    } else {
        assert(!(forall|j: int| 0 <= j < rest.len() ==> !is_param_token(#[trigger] rest[j])));
        let j = choose|j: int| 0 <= j < rest.len() && is_param_token(rest[j]);
        assert(is_param_token(tokens[j + 1]));
    }
}

/// Whether the token's text begins with the prefix character `-`.
fn opens_parameter(t: &String) -> (r: bool)
    ensures
        r == is_param_token(t@),
{
    t.as_str().unicode_len() > 0 && t.as_str().get_char(0) == '-'
}

/// Classify a full invocation: the first token becomes the program name, the
/// remaining tokens are partitioned in one left-to-right pass, and the given
/// piped content is carried into the result unchanged. Fails exactly when
/// `tokens` is empty.
pub fn classify_tokens(tokens: Vec<String>, content_piped: Option<String>) -> (r: Result<
    Prompt,
    PromptError,
>)
    ensures
        tokens@.len() == 0 ==> r == Err::<Prompt, PromptError>(PromptError::MissingProgramName),
        tokens@.len() > 0 ==> match r {
            Ok(p) => classifies(tokens.deep_view(), p) && p.content_piped == content_piped
                && p.wf(),
            Err(_) => false,
        },
{
    if tokens.len() == 0 {
        return Err(PromptError::MissingProgramName);
    }
    let ghost all = tokens.deep_view();
    let ghost rest = all.drop_first();
    let program_name = tokens[0].clone();
    let mut arguments: Vec<String> = Vec::new();
    let mut parameters: Parameters = Parameters::new();
    let mut current: Option<(String, Vec<String>)> = None;
    let n = tokens.len();
    let mut i: usize = 1;
    while i < n
        invariant
            1 <= i <= n == tokens@.len(),
            all == tokens.deep_view(),
            rest == all.drop_first(),
            arguments.deep_view() == scan(rest.take(i - 1)).0,
            parameters.wf(),
            parameters@ == scan(rest.take(i - 1)).1,
            match current {
                None => scan(rest.take(i - 1)).2 is None,
                Some(p) => scan(rest.take(i - 1)).2 == Some((p.0@, p.1.deep_view())),
            },
        decreases n - i,
    {
        let ghost pre = scan(rest.take(i - 1));
        proof {
            assert(rest.take(i as int).drop_last() =~= rest.take(i - 1));
            assert(rest.take(i as int).last() == all[i as int]);
            assert(scan(rest.take(i as int)) == scan_step(pre, all[i as int]));
        }
        let token = tokens[i].clone();
        if opens_parameter(&token) {
            let flushed = current;
            current = Some((token, Vec::new()));
            match flushed {
                Some(p) => {
                    parameters.insert(p.0, p.1);
                },
                None => {},
            }
        } else {
            match current {
                None => {
                    arguments.push(token);
                    current = None;
                    proof {
                        assert(arguments.deep_view() =~= pre.0.push(all[i as int]));
                    }
                },
                Some(p) => {
                    let mut values = p.1;
                    values.push(token);
                    proof {
                        assert(values.deep_view() =~= scan_step(pre, all[i as int]).2.unwrap().1);
                    }
                    current = Some((p.0, values));
                },
            }
        }
        i += 1;
    }
    proof {
        assert(rest.take(n - 1) =~= rest);
    }
    match current {
        Some(p) => {
            parameters.insert(p.0, p.1);
        },
        None => {},
    }
    let arguments_opt = if arguments.len() > 0 {
        Some(arguments)
    } else {
        None
    };
    let parameters_opt = if parameters.is_empty() {
        None
    } else {
        Some(parameters)
    };
    Ok(
        Prompt {
            program_name,
            content_piped,
            arguments: arguments_opt,
            parameters: parameters_opt,
        },
    )
}

} // verus!
