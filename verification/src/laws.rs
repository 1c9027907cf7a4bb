//! What holds of splitting and recovering together.

use vstd::prelude::*;
use vstd::utf8::{encode_scalar, encode_utf8, encode_utf8_decode_utf8, encode_utf8_valid_utf8};
use crate::codec::{
    base64_decoded, base64_encoded, text_of_bytes, token_frame, token_frames, token_holds_share,
    token_is_canonical,
};
use crate::error::Error;
use crate::share::frame_holds_share;
use crate::sharing::{
    all_frames_hold_shares, all_hold_shares, all_tokens_hold_shares, combine_outcome, dealt,
    dealt_tokens, distinct_x, drawn_from, interpolated, recover_outcome, same_length,
};

verus! {

/// The UTF-8 bytes of a nonempty text are not empty.
pub proof fn lemma_encoding_nonempty(text: Seq<char>)
    requires
        text.len() >= 1,
    ensures
        encode_utf8(text).len() >= 1,
{
    assert(encode_scalar(text[0] as u32).len() >= 1);
    assert(encode_utf8(text) == encode_scalar(text[0] as u32) + encode_utf8(text.drop_first()));
}

/// Different shares of one split of a nonempty secret, in any order, can be
/// interpolated together: each holds a share, all have one length, and no x
/// occurs twice.
pub proof fn lemma_chosen_shares_consistent(
    secret: Seq<u8>,
    shares: nat,
    threshold: nat,
    out: Seq<Seq<u8>>,
    chosen: Seq<Seq<u8>>,
)
    requires
        secret.len() >= 1,
        dealt(secret, shares, threshold, out),
        chosen.no_duplicates(),
        drawn_from(chosen, out),
    ensures
        all_frames_hold_shares(chosen),
        all_hold_shares(chosen),
        same_length(chosen),
        distinct_x(chosen),
{
    assert forall|j: int| 0 <= j < chosen.len() implies (#[trigger] chosen[j]).len()
        == secret.len() + 1 && chosen[j][0] != 0 by {
        assert(out.contains(chosen[j]));
        let i = choose|i: int| 0 <= i < out.len() && out[i] == chosen[j];
        assert(out[i].len() == secret.len() + 1);
    }
    assert forall|j: int| 0 <= j < chosen.len() implies frame_holds_share(
        #[trigger] chosen[j],
    ) by {
        assert(chosen[j].len() == secret.len() + 1);
    }
    assert forall|a: int, b: int| 0 <= a < b < chosen.len() implies (#[trigger] chosen[a])[0] != (
    #[trigger] chosen[b])[0] by {
        assert(out.contains(chosen[a]));
        assert(out.contains(chosen[b]));
        let i = choose|i: int| 0 <= i < out.len() && out[i] == chosen[a];
        let k = choose|k: int| 0 <= k < out.len() && out[k] == chosen[b];
        assert(out[i][0] == i + 1);
        assert(out[k][0] == k + 1);
        assert(chosen[a] != chosen[b]);
    }
}

/// Different tokens of one split of a nonempty secret, in any order, hold
/// different frames of that split.
pub proof fn lemma_chosen_tokens_hold_frames(
    secret: Seq<u8>,
    shares: nat,
    threshold: nat,
    tokens: Seq<Seq<char>>,
    chosen: Seq<Seq<char>>,
)
    requires
        secret.len() >= 1,
        dealt_tokens(secret, shares, threshold, tokens),
        chosen.no_duplicates(),
        forall|j: int| 0 <= j < chosen.len() ==> tokens.contains(#[trigger] chosen[j]),
    ensures
        all_tokens_hold_shares(chosen),
        token_frames(chosen).no_duplicates(),
        drawn_from(token_frames(chosen), token_frames(tokens)),
{
    let out = token_frames(tokens);
    let picked = token_frames(chosen);
    assert forall|j: int| 0 <= j < chosen.len() implies token_holds_share(#[trigger] chosen[j])
        && token_is_canonical(chosen[j]) && out.contains(picked[j]) by {
        assert(tokens.contains(chosen[j]));
        let i = choose|i: int| 0 <= i < tokens.len() && tokens[i] == chosen[j];
        assert(token_is_canonical(tokens[i]));
        assert(out[i] == token_frame(tokens[i]));
        assert(out[i].len() == secret.len() + 1);
        assert(out[i][0] == i + 1);
        assert(picked[j] == out[i]);
    }
    assert forall|a: int, b: int| 0 <= a < picked.len() && 0 <= b < picked.len() && a
        != b implies picked[a] != picked[b] by {
        assert(chosen[a] != chosen[b]);
        assert(token_is_canonical(chosen[a]));
        assert(token_is_canonical(chosen[b]));
        assert(picked[a] == token_frame(chosen[a]));
        assert(picked[b] == token_frame(chosen[b]));
    }
}

/// Recovering from any `threshold` or more different shares of one split of
/// a nonempty secret, in any order, gives the secret.
pub proof fn lemma_recover_after_split(
    secret: Seq<u8>,
    shares: nat,
    threshold: nat,
    out: Seq<Seq<u8>>,
    chosen: Seq<Seq<u8>>,
)
    requires
        secret.len() >= 1,
        3 <= threshold <= shares <= 255,
        dealt(secret, shares, threshold, out),
        chosen.len() >= threshold,
        chosen.no_duplicates(),
        drawn_from(chosen, out),
    ensures
        recover_outcome(chosen) == Ok::<Seq<u8>, Error>(secret),
{
    lemma_chosen_shares_consistent(secret, shares, threshold, out, chosen);
    assert(interpolated(chosen) == secret);
}

/// Combining any `threshold` or more different tokens of one split of a
/// nonempty text, in any order, gives the text.
pub proof fn lemma_combine_after_split(
    secret: Seq<char>,
    shares: nat,
    threshold: nat,
    tokens: Seq<Seq<char>>,
    chosen: Seq<Seq<char>>,
)
    requires
        secret.len() >= 1,
        3 <= threshold <= shares <= 255,
        dealt_tokens(encode_utf8(secret), shares, threshold, tokens),
        chosen.len() >= threshold,
        chosen.no_duplicates(),
        forall|j: int| 0 <= j < chosen.len() ==> tokens.contains(#[trigger] chosen[j]),
    ensures
        combine_outcome(chosen) == Ok::<Seq<char>, Error>(secret),
{
    let bytes = encode_utf8(secret);
    lemma_encoding_nonempty(secret);
    lemma_chosen_tokens_hold_frames(bytes, shares, threshold, tokens, chosen);
    lemma_recover_after_split(
        bytes,
        shares,
        threshold,
        token_frames(tokens),
        token_frames(chosen),
    );
    encode_utf8_valid_utf8(secret);
    encode_utf8_decode_utf8(secret);
}

/// Recovery cannot tell how many shares a split asked for. Three or more
/// different shares of one split of a nonempty secret, however few against
/// the threshold, give no error: the outcome is what they interpolate to.
pub proof fn lemma_recover_reports_no_shortfall(
    secret: Seq<u8>,
    shares: nat,
    threshold: nat,
    out: Seq<Seq<u8>>,
    chosen: Seq<Seq<u8>>,
)
    requires
        secret.len() >= 1,
        dealt(secret, shares, threshold, out),
        chosen.len() >= 3,
        chosen.no_duplicates(),
        drawn_from(chosen, out),
    ensures
        recover_outcome(chosen) == Ok::<Seq<u8>, Error>(interpolated(chosen)),
{
    lemma_chosen_shares_consistent(secret, shares, threshold, out, chosen);
}

/// Combining cannot tell either. Three or more different tokens of one split
/// of a nonempty text give the text that their frames interpolate to, or
/// `NonUtf8Secret`, and no other error.
pub proof fn lemma_combine_reports_no_shortfall(
    secret: Seq<char>,
    shares: nat,
    threshold: nat,
    tokens: Seq<Seq<char>>,
    chosen: Seq<Seq<char>>,
)
    requires
        secret.len() >= 1,
        dealt_tokens(encode_utf8(secret), shares, threshold, tokens),
        chosen.len() >= 3,
        chosen.no_duplicates(),
        forall|j: int| 0 <= j < chosen.len() ==> tokens.contains(#[trigger] chosen[j]),
    ensures
        combine_outcome(chosen) == text_of_bytes(interpolated(token_frames(chosen))),
{
    let bytes = encode_utf8(secret);
    lemma_encoding_nonempty(secret);
    lemma_chosen_tokens_hold_frames(bytes, shares, threshold, tokens, chosen);
    lemma_recover_reports_no_shortfall(
        bytes,
        shares,
        threshold,
        token_frames(tokens),
        token_frames(chosen),
    );
}

/// The tokens of one split are pairwise different.
pub proof fn lemma_tokens_distinct(
    secret: Seq<u8>,
    shares: nat,
    threshold: nat,
    tokens: Seq<Seq<char>>,
)
    requires
        dealt_tokens(secret, shares, threshold, tokens),
    ensures
        tokens.no_duplicates(),
{
    let out = token_frames(tokens);
    assert forall|i: int, j: int| 0 <= i < tokens.len() && 0 <= j < tokens.len() && i
        != j implies tokens[i] != tokens[j] by {
        assert(out[i][0] == i + 1);
        assert(out[j][0] == j + 1);
        assert(out[i] == token_frame(tokens[i]));
        assert(out[j] == token_frame(tokens[j]));
    }
}

/// Decoding a token of a split and encoding the bytes again gives the same
/// token.
pub proof fn lemma_tokens_reencode(
    secret: Seq<u8>,
    shares: nat,
    threshold: nat,
    tokens: Seq<Seq<char>>,
    i: int,
)
    requires
        dealt_tokens(secret, shares, threshold, tokens),
        0 <= i < tokens.len(),
    ensures
        base64_decoded(tokens[i]) matches Some(bytes) && base64_encoded(bytes) == tokens[i],
{
    assert(token_is_canonical(tokens[i]));
}

} // verus!
