//! Decoding the located elements of a text, each by a decoder of the
//! caller's.

use vstd::prelude::*;
use vstd::string::*;
use vstd::utf8::*;
use crate::text::{is_span_of, slice_of};
use crate::tokenizer::xml_event;
use crate::xml::{
    fault_of, is_wanted, lemma_absent_tag_locates_nothing, located, seek_xml_spans, span_ints,
    XmlError,
};

verus! {

/// What to do when an element does not decode.
#[derive(Debug, Clone, Copy, PartialEq, Eq, Structural)]
pub enum DecodePolicy {
    /// Give up, with the decoder's error.
    Abort,
    /// Leave the element out and go on with the next.
    Skip,
}

/// Why the elements of a text could not be extracted.
#[derive(Debug)]
pub enum ExtractError<E> {
    /// The elements could not be located.
    Locate(XmlError),
    /// An element does not fit what the decoder expects, and the policy was
    /// to give up. Holds the decoder's error.
    SchemaMismatch(E),
}

/// The values of the decodings that succeeded, in their order.
pub open spec fn successes<T, E>(outcomes: Seq<Result<T, E>>) -> Seq<T>
    decreases outcomes.len(),
{
    if outcomes.len() == 0 {
        Seq::empty()
    } else {
        match outcomes.last() {
            Ok(value) => successes(outcomes.drop_last()).push(value),
            Err(_) => successes(outcomes.drop_last()),
        }
    }
}

/// `outcome` is something that `decode` may return for the piece of `bytes`
/// that `span` delimits.
pub open spec fn decodes_to<'a, T, E, F: Fn(&'a str) -> Result<T, E>>(
    decode: F,
    bytes: Seq<u8>,
    span: (int, int),
    outcome: Result<T, E>,
) -> bool {
    exists|piece: &'a str|
        piece.spec_bytes() == bytes.subrange(span.0, span.1) && #[trigger] call_ensures(
            decode,
            (piece,),
            outcome,
        )
}

/// `out` is the result of decoding the pieces of `bytes` that `spans`
/// delimit, one after the other, where `outcomes` is what the decoder
/// returned for those that it was given.
///
/// A span that is no piece of the text ends the run with `Inconsistent`. A
/// decoding that fails ends it with `SchemaMismatch` under the policy
/// `Abort`, and is left out under the policy `Skip`. A run that reaches the
/// end gives the values that were decoded, in the order of the spans.
pub open spec fn decode_run<'a, T, E, F: Fn(&'a str) -> Result<T, E>>(
    decode: F,
    bytes: Seq<u8>,
    spans: Seq<(int, int)>,
    policy: DecodePolicy,
    outcomes: Seq<Result<T, E>>,
    out: Result<Vec<T>, ExtractError<E>>,
) -> bool {
    &&& outcomes.len() <= spans.len()
    &&& forall|i: int|
        0 <= i < outcomes.len() ==> {
            &&& is_span_of(bytes, spans[i].0, spans[i].1)
            &&& decodes_to(decode, bytes, spans[i], #[trigger] outcomes[i])
            &&& policy == DecodePolicy::Abort ==> outcomes[i] is Ok
        }
    &&& match out {
        Ok(values) => outcomes.len() == spans.len() && values@ == successes(outcomes),
        Err(ExtractError::Locate(XmlError::Inconsistent)) => {
            &&& outcomes.len() < spans.len()
            &&& !is_span_of(
                bytes,
                spans[outcomes.len() as int].0,
                spans[outcomes.len() as int].1,
            )
        },
        Err(ExtractError::SchemaMismatch(e)) => {
            &&& policy == DecodePolicy::Abort
            &&& outcomes.len() < spans.len()
            &&& is_span_of(
                bytes,
                spans[outcomes.len() as int].0,
                spans[outcomes.len() as int].1,
            )
            &&& decodes_to(decode, bytes, spans[outcomes.len() as int], Err::<T, E>(e))
        },
        Err(_) => false,
    }
}

/// There are never more values than decodings.
pub proof fn lemma_successes_len<T, E>(outcomes: Seq<Result<T, E>>)
    ensures
        successes(outcomes).len() <= outcomes.len(),
    decreases outcomes.len(),
{
    if outcomes.len() > 0 {
        lemma_successes_len(outcomes.drop_last());
    }
}

/// Where every decoding succeeded, the values are those of the decodings,
/// one for one.
pub proof fn lemma_successes_all<T, E>(outcomes: Seq<Result<T, E>>)
    requires
        forall|i: int| 0 <= i < outcomes.len() ==> (#[trigger] outcomes[i]) is Ok,
    ensures
        successes(outcomes).len() == outcomes.len(),
        forall|i: int|
            0 <= i < outcomes.len() ==> #[trigger] outcomes[i] == Ok::<T, E>(
                successes(outcomes)[i],
            ),
    decreases outcomes.len(),
{
    if outcomes.len() > 0 {
        let rest = outcomes.drop_last();
        assert forall|i: int| 0 <= i < rest.len() implies (#[trigger] rest[i]) is Ok by {
        }
        lemma_successes_all(rest);
        assert forall|i: int| 0 <= i < outcomes.len() implies #[trigger] outcomes[i] == Ok::<
            T,
            E,
        >(successes(outcomes)[i]) by {
            if i < rest.len() {
                assert(outcomes[i] == rest[i]);
            }
        }
    }
}

/// A run under the policy `Abort` that succeeds has decoded every span: it
/// gives one value for each span, in the order of the spans, and each value
/// is what the decoder returned for the piece of that span.
pub proof fn lemma_abort_decodes_all<'a, T, E, F: Fn(&'a str) -> Result<T, E>>(
    decode: F,
    bytes: Seq<u8>,
    spans: Seq<(int, int)>,
    outcomes: Seq<Result<T, E>>,
    out: Result<Vec<T>, ExtractError<E>>,
)
    requires
        decode_run(decode, bytes, spans, DecodePolicy::Abort, outcomes, out),
        out is Ok,
    ensures
        out->Ok_0@.len() == spans.len(),
        forall|i: int|
            0 <= i < spans.len() ==> decodes_to(
                decode,
                bytes,
                #[trigger] spans[i],
                Ok::<T, E>(out->Ok_0@[i]),
            ),
{
    lemma_successes_all(outcomes);
    assert forall|i: int| 0 <= i < spans.len() implies decodes_to(
        decode,
        bytes,
        #[trigger] spans[i],
        Ok::<T, E>(out->Ok_0@[i]),
    ) by {
        assert(outcomes[i] == Ok::<T, E>(successes(outcomes)[i]));
    }
}

/// A run under the policy `Skip` never ends with the decoder's error, and a
/// run that succeeds gives no more values than there are spans.
pub proof fn lemma_skip_never_mismatches<'a, T, E, F: Fn(&'a str) -> Result<T, E>>(
    decode: F,
    bytes: Seq<u8>,
    spans: Seq<(int, int)>,
    outcomes: Seq<Result<T, E>>,
    out: Result<Vec<T>, ExtractError<E>>,
)
    requires
        decode_run(decode, bytes, spans, DecodePolicy::Skip, outcomes, out),
    ensures
        !(out matches Err(ExtractError::SchemaMismatch(_))),
        out matches Ok(values) ==> values@.len() <= spans.len(),
{
    lemma_successes_len(outcomes);
}

/// Without spans there is nothing to decode: the run succeeds with no value.
pub proof fn lemma_no_spans_no_values<'a, T, E, F: Fn(&'a str) -> Result<T, E>>(
    decode: F,
    bytes: Seq<u8>,
    policy: DecodePolicy,
    outcomes: Seq<Result<T, E>>,
    out: Result<Vec<T>, ExtractError<E>>,
)
    requires
        decode_run(decode, bytes, Seq::<(int, int)>::empty(), policy, outcomes, out),
    ensures
        out matches Ok(values) && values@.len() == 0,
{
}

/// Decodes the pieces of `text` that `spans` delimit, one after the other,
/// each by one call of `decode`, and deals with a failure as `policy` says:
/// see `decode_run`.
pub fn decode_spans<'a, T, E, F>(
    text: &'a str,
    spans: &Vec<(usize, usize)>,
    decode: F,
    policy: DecodePolicy,
) -> (out: Result<Vec<T>, ExtractError<E>>) where F: Fn(&'a str) -> Result<T, E>
    requires
        forall|piece: &'a str| call_requires(decode, (piece,)),
    ensures
        exists|outcomes: Seq<Result<T, E>>|
            decode_run(decode, text.spec_bytes(), span_ints(spans@), policy, outcomes, out),
{
    let mut values: Vec<T> = Vec::with_capacity(spans.len());
    let ghost mut outcomes: Seq<Result<T, E>> = Seq::empty();
    let ghost bytes = text.spec_bytes();
    let mut i: usize = 0;
    while i < spans.len()
        invariant
            bytes == text.spec_bytes(),
            forall|piece: &'a str| call_requires(decode, (piece,)),
            0 <= i <= spans.len(),
            outcomes.len() == i,
            forall|j: int|
                0 <= j < i ==> {
                    &&& is_span_of(bytes, spans@[j].0 as int, spans@[j].1 as int)
                    &&& decodes_to(
                        decode,
                        bytes,
                        (spans@[j].0 as int, spans@[j].1 as int),
                        #[trigger] outcomes[j],
                    )
                    &&& policy == DecodePolicy::Abort ==> outcomes[j] is Ok
                },
            values@ == successes(outcomes),
        decreases spans.len() - i,
    {
        let span = spans[i];
        match slice_of(text, span.0, span.1) {
            None => {
                let out = Err(ExtractError::Locate(XmlError::Inconsistent));
                assert(decode_run(
                    decode,
                    bytes,
                    span_ints(spans@),
                    policy,
                    outcomes,
                    out,
                ));
                return out;
            },
            Some(piece) => {
                match decode(piece) {
                    Ok(value) => {
                        proof {
                            let outcome = Ok::<T, E>(value);
                            let grown = outcomes.push(outcome);
                            assert(grown.drop_last() =~= outcomes);
                            outcomes = grown;
                        }
                        values.push(value);
                    },
                    Err(e) => {
                        match policy {
                            DecodePolicy::Abort => {
                                let out = Err(ExtractError::SchemaMismatch(e));
                                assert(decode_run(
                                    decode,
                                    bytes,
                                    span_ints(spans@),
                                    policy,
                                    outcomes,
                                    out,
                                ));
                                return out;
                            },
                            DecodePolicy::Skip => {
                                proof {
                                    let grown = outcomes.push(Err::<T, E>(e));
                                    assert(grown.drop_last() =~= outcomes);
                                    outcomes = grown;
                                }
                            },
                        }
                    },
                }
            },
        }
        i += 1;
    }
    let out = Ok(values);
    assert(decode_run(
        decode,
        bytes,
        span_ints(spans@),
        policy,
        outcomes,
        out,
    ));
    out
}

/// `out` is the result of extracting the elements of `bytes` that are
/// looked for under `tag`, where `outcomes` is what the decoder returned.
///
/// A text whose elements are not located gives the locating error and
/// nothing is decoded. Otherwise the located elements are decoded one after
/// the other, in the order of the text, each from the piece of the text that
/// its span delimits, and `out` is the result of that run: see `located` and
/// `decode_run`. Self-closing elements are not among them.
pub open spec fn extract_run<'a, T, E, F: Fn(&'a str) -> Result<T, E>>(
    decode: F,
    bytes: Seq<u8>,
    tag: Seq<u8>,
    policy: DecodePolicy,
    outcomes: Seq<Result<T, E>>,
    out: Result<Vec<T>, ExtractError<E>>,
) -> bool {
    match located(bytes, tag, false) {
        Ok(spans) => decode_run(decode, bytes, spans, policy, outcomes, out),
        Err(fault) => out matches Err(ExtractError::Locate(e)) && fault_of(e) == fault,
    }
}

/// An extraction under the policy `Abort` that succeeds has located and
/// decoded every element that is looked for: it gives one value for each
/// located span, in the order of the text, and each value is what the
/// decoder returned for the piece of its own span.
pub proof fn lemma_extract_decodes_all<'a, T, E, F: Fn(&'a str) -> Result<T, E>>(
    decode: F,
    bytes: Seq<u8>,
    tag: Seq<u8>,
    outcomes: Seq<Result<T, E>>,
    out: Result<Vec<T>, ExtractError<E>>,
)
    requires
        extract_run(decode, bytes, tag, DecodePolicy::Abort, outcomes, out),
        out is Ok,
    ensures
        located(bytes, tag, false) matches Ok(spans) && {
            &&& out->Ok_0@.len() == spans.len()
            &&& forall|i: int|
                0 <= i < spans.len() ==> decodes_to(
                    decode,
                    bytes,
                    #[trigger] spans[i],
                    Ok::<T, E>(out->Ok_0@[i]),
                )
        },
{
    lemma_abort_decodes_all(decode, bytes, located(bytes, tag, false)->Ok_0, outcomes, out);
}

/// Where the reader reports no start tag that is looked for under `tag` and
/// the locating does not fail, the extraction succeeds with no value, under
/// either policy, and the decoder is not called.
pub proof fn lemma_extract_absent_tag<'a, T, E, F: Fn(&'a str) -> Result<T, E>>(
    decode: F,
    bytes: Seq<u8>,
    tag: Seq<u8>,
    policy: DecodePolicy,
    outcomes: Seq<Result<T, E>>,
    out: Result<Vec<T>, ExtractError<E>>,
)
    requires
        extract_run(decode, bytes, tag, policy, outcomes, out),
        forall|p: int| !is_wanted(#[trigger] xml_event(bytes, true, p), tag, false),
        located(bytes, tag, false) is Ok,
    ensures
        out matches Ok(values) && values@.len() == 0,
        outcomes.len() == 0,
{
    lemma_absent_tag_locates_nothing(bytes, tag, false);
}

/// Extracts the elements of `input_str` that are looked for under `tag`:
/// locates them as `seek_xml_spans` does, then decodes each, in the order of
/// the text, by one call of `decode` on the piece of the text that the
/// element takes, start tag and end tag included, and deals with a failure
/// as `policy` says: see `extract_run`.
///
/// `size_hint` sizes the list of spans beforehand and bounds nothing.
pub fn seek_xml_blocks<'a, T, E, F>(
    input_str: &'a String,
    tag: &[u8],
    size_hint: Option<u32>,
    decode: F,
    policy: DecodePolicy,
) -> (out: Result<Vec<T>, ExtractError<E>>) where F: Fn(&'a str) -> Result<T, E>
    requires
        forall|piece: &'a str| call_requires(decode, (piece,)),
    ensures
        exists|outcomes: Seq<Result<T, E>>|
            extract_run(decode, encode_utf8(input_str@), tag@, policy, outcomes, out),
{
    let spans = match seek_xml_spans(input_str, tag, size_hint) {
        Ok(spans) => spans,
        Err(e) => {
            let out = Err(ExtractError::Locate(e));
            assert(extract_run(
                decode,
                encode_utf8(input_str@),
                tag@,
                policy,
                Seq::<Result<T, E>>::empty(),
                out,
            ));
            return out;
        },
    };
    let out = decode_spans(input_str.as_str(), &spans, decode, policy);
    proof {
        let bytes = encode_utf8(input_str@);
        let outcomes = choose|outcomes: Seq<Result<T, E>>|
            decode_run(decode, bytes, span_ints(spans@), policy, outcomes, out);
        assert(extract_run(decode, bytes, tag@, policy, outcomes, out));
    }
    out
}

} // verus!
