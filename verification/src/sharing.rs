//! Splitting a secret into shares and recovering it from them.
//!
//! Every split draws a fresh 32-byte seed from the system and deals from a
//! ChaCha20 generator started with it; `split_secret_seeded` and
//! `split_seeded` take the seed from the caller instead, and are functions
//! of their arguments.
//!
//! The dealer never draws a zero coefficient: each comes from the 255
//! nonzero bytes, not from the whole field. This weakens secrecy. Fewer
//! shares than the threshold do not leave every secret equally possible, and
//! nothing stated here promises that they do.
//!
//! Recovery takes no threshold: it interpolates through every share it is
//! given. Given three or more authentic shares, but fewer than the split's
//! threshold, it cannot tell: it reports no error and returns the bytes
//! that the interpolation gives. Callers must know the threshold of their
//! split.

use vstd::prelude::*;
use vstd::utf8::encode_utf8;
use crate::codec::{
    decode_share, encode_share, secret_from_bytes, text_of_bytes, texts, token_frame,
    token_frames, token_holds_share, token_is_canonical,
};
use crate::error::{Error, ParameterFault, MAX_SHARES, MIN_THRESHOLD};
use crate::share::{frame_holds_share, frames, Share};

verus! {

/// The value at zero, for each y-position, of the polynomial over GF(256)
/// (modulus 0x11d) that Lagrange interpolation puts through the points of the
/// given frames.
pub uninterp spec fn interpolated(frames: Seq<Seq<u8>>) -> Seq<u8>;

/// The x-coordinate of each frame.
pub open spec fn x_coordinates(frames: Seq<Seq<u8>>) -> Seq<u8> {
    Seq::new(frames.len(), |i: int| frames[i][0])
}

/// Every frame holds a share: a nonzero x-coordinate and at least one
/// y-value.
pub open spec fn all_frames_hold_shares(frames: Seq<Seq<u8>>) -> bool {
    forall|i: int| 0 <= i < frames.len() ==> frame_holds_share(#[trigger] frames[i])
}

/// Every frame has an x-coordinate and at least one y-value.
pub open spec fn all_hold_shares(frames: Seq<Seq<u8>>) -> bool {
    forall|i: int| 0 <= i < frames.len() ==> (#[trigger] frames[i]).len() >= 2
}

/// Every frame is as long as the first.
pub open spec fn same_length(frames: Seq<Seq<u8>>) -> bool {
    forall|i: int| 0 <= i < frames.len() ==> (#[trigger] frames[i]).len() == frames[0].len()
}

/// No two frames have the same x-coordinate.
pub open spec fn distinct_x(frames: Seq<Seq<u8>>) -> bool {
    forall|i: int, j: int|
        0 <= i < j < frames.len() ==> (#[trigger] frames[i])[0] != (#[trigger] frames[j])[0]
}

/// Every chosen frame is one of the dealt frames.
pub open spec fn drawn_from(chosen: Seq<Seq<u8>>, dealt: Seq<Seq<u8>>) -> bool {
    forall|j: int| 0 <= j < chosen.len() ==> dealt.contains(#[trigger] chosen[j])
}

/// Any `threshold` or more of the dealt frames, with distinct x-coordinates
/// and in any order, interpolate to the secret.
pub open spec fn reconstructs(dealt: Seq<Seq<u8>>, threshold: nat, secret: Seq<u8>) -> bool {
    forall|chosen: Seq<Seq<u8>>|
        chosen.len() >= 1 && chosen.len() >= threshold && all_hold_shares(chosen) && distinct_x(
            chosen,
        ) && drawn_from(chosen, dealt) ==> #[trigger] interpolated(chosen) == secret
}

/// What the dealer gives when asked for the first `count` shares of `secret`
/// with the threshold byte `threshold`: at most 255 frames, the frame at
/// index `i` with x-coordinate `i + 1` and one y-value for each secret byte,
/// any `threshold` of which reconstruct the secret. Of fewer frames nothing
/// is said.
pub open spec fn dealer_gives(secret: Seq<u8>, count: nat, threshold: u8, out: Seq<Seq<u8>>) -> bool {
    &&& out.len() == if count < MAX_SHARES as nat { count } else { MAX_SHARES as nat }
    &&& forall|i: int|
        0 <= i < out.len() ==> (#[trigger] out[i]).len() == secret.len() + 1 && out[i][0] == i + 1
    &&& reconstructs(out, threshold as nat, secret)
}

/// What a split of `secret` into `shares` shares with `threshold` deals:
/// exactly `shares` frames, the frame at index `i` with x-coordinate `i + 1`
/// and one y-value for each secret byte, any `threshold` of which
/// reconstruct the secret. Of fewer frames nothing is said.
pub open spec fn dealt(secret: Seq<u8>, shares: nat, threshold: nat, out: Seq<Seq<u8>>) -> bool {
    &&& out.len() == shares
    &&& forall|i: int|
        0 <= i < out.len() ==> (#[trigger] out[i]).len() == secret.len() + 1 && out[i][0] == i + 1
    &&& reconstructs(out, threshold, secret)
}

/// `dealt`, for tokens: each is canonical base64, and their frames are dealt.
pub open spec fn dealt_tokens(
    secret: Seq<u8>,
    shares: nat,
    threshold: nat,
    tokens: Seq<Seq<char>>,
) -> bool {
    &&& forall|i: int| 0 <= i < tokens.len() ==> token_is_canonical(#[trigger] tokens[i])
    &&& dealt(secret, shares, threshold, token_frames(tokens))
}

/// The fault of a pair of split parameters, if it has one. A threshold above
/// the share count is reported before one under the minimum, and that before
/// a share count above 255.
pub open spec fn parameter_fault(shares: nat, threshold: nat) -> Option<ParameterFault> {
    if threshold > shares {
        Some(ParameterFault::ThresholdAboveShares)
    } else if threshold < 3 {
        Some(ParameterFault::ThresholdBelowMinimum)
    } else if shares > 255 {
        Some(ParameterFault::SharesAboveMaximum)
    } else {
        None
    }
}

/// When the interpolation of the outside crate yields a value: on one or more
/// frames, each of a share, all of one length, with at least `threshold`
/// different x-coordinates among them.
pub open spec fn recoverable(frames: Seq<Seq<u8>>, threshold: nat) -> bool {
    &&& frames.len() >= 1
    &&& all_hold_shares(frames)
    &&& same_length(frames)
    &&& x_coordinates(frames).to_set().len() >= threshold
}

/// What `recover` returns on shares with the given frames.
pub open spec fn recover_outcome(frames: Seq<Seq<u8>>) -> Result<Seq<u8>, Error> {
    if frames.len() < 3 {
        Err(Error::InsufficientShares)
    } else if !all_frames_hold_shares(frames) {
        Err(Error::MalformedShare)
    } else if !same_length(frames) || !distinct_x(frames) {
        Err(Error::InconsistentShares)
    } else {
        Ok(interpolated(frames))
    }
}

/// Every token holds a share.
pub open spec fn all_tokens_hold_shares(tokens: Seq<Seq<char>>) -> bool {
    forall|i: int| 0 <= i < tokens.len() ==> token_holds_share(#[trigger] tokens[i])
}

/// What `combine` returns on the given tokens.
pub open spec fn combine_outcome(tokens: Seq<Seq<char>>) -> Result<Seq<char>, Error> {
    if tokens.len() < 3 {
        Err(Error::InsufficientShares)
    } else if !all_tokens_hold_shares(tokens) {
        Err(Error::MalformedShare)
    } else {
        match recover_outcome(token_frames(tokens)) {
            Ok(bytes) => text_of_bytes(bytes),
            Err(e) => Err(e),
        }
    }
}

/// The frames of the first `count` shares that are dealt for a secret when
/// the coefficients come from a ChaCha20 generator started with `seed`.
pub uninterp spec fn seeded_deal(threshold: u8, secret: Seq<u8>, seed: Seq<u8>, count: nat) -> Seq<
    Seq<u8>,
>;

/// `rand::RngCore::try_fill_bytes` of `rand::rngs::OsRng`, on 32 bytes.
/// Nothing is claimed of the bytes: they are the system's. `None` stands for
/// the error of the source.
#[verifier::external_body]
fn draw_seed() -> (r: Option<[u8; 32]>) {
    let mut seed: [u8; 32] = [0; 32];
    match rand::RngCore::try_fill_bytes(&mut rand::rngs::OsRng, &mut seed) {
        Ok(_) => Some(seed),
        Err(_) => None,
    }
}

/// `sharks::Sharks::dealer_rng` with the given threshold, on a
/// `rand_chacha::ChaCha20Rng` made by `from_seed`; its first `count` shares.
/// Trusted: the shares are a function of the arguments; the iterator ends
/// after 255 shares; the share at index `i` has x-coordinate `i + 1` and one
/// y-value for each secret byte; and, whatever coefficients the generator
/// gave, any `threshold` or more of the shares interpolate to the secret, as
/// the crate documents of its own `recover`. The crate draws every
/// coefficient from 1 to 255, never zero; nothing is claimed of that.
#[verifier::external_body]
fn deal(threshold: u8, secret: &[u8], seed: &[u8; 32], count: usize) -> (r: Vec<Share>)
    ensures
        frames(r@) == seeded_deal(threshold, secret@, seed@, count as nat),
        dealer_gives(secret@, count as nat, threshold, frames(r@)),
{
    let mut rng: rand_chacha::ChaCha20Rng = rand::SeedableRng::from_seed(*seed);
    sharks::Sharks(threshold)
        .dealer_rng(secret, &mut rng)
        .take(count)
        .map(|s| Share { x: s.x.0, y: s.y.iter().map(|g| g.0).collect() })
        .collect()
}

/// `sharks::Sharks::recover` with the given threshold, on the shares that
/// `sharks::Share::try_from` reads from the frames. Trusted: it yields a
/// value exactly on frames that are `recoverable`, and that value is the
/// interpolation of all the frames, a function of them alone, with one byte
/// for each y-value of the first share.
#[verifier::external_body]
fn interpolate(threshold: u8, shares: &Vec<Share>) -> (r: Option<Vec<u8>>)
    ensures
        r is Some <==> recoverable(frames(shares@), threshold as nat),
        r matches Some(secret) ==> secret@ == interpolated(frames(shares@)),
        r matches Some(secret) ==> secret@.len() + 1 == frames(shares@)[0].len(),
{
    let parsed: Result<Vec<sharks::Share>, &str> = shares
        .iter()
        .map(|s| sharks::Share::try_from([&[s.x][..], &s.y[..]].concat().as_slice()))
        .collect();
    match parsed {
        Ok(points) => sharks::Sharks(threshold).recover(&points).ok(),
        Err(_) => None,
    }
}

/// Frames with distinct x-coordinates have as many x-coordinates as frames.
pub proof fn lemma_distinct_x_count(frames: Seq<Seq<u8>>)
    requires
        distinct_x(frames),
    ensures
        x_coordinates(frames).to_set().len() == frames.len(),
{
    let xs = x_coordinates(frames);
    assert forall|i: int, j: int| 0 <= i < xs.len() && 0 <= j < xs.len() && i != j implies xs[i]
        != xs[j] by {
        if i < j {
            assert(frames[i][0] != frames[j][0]);
        } else {
            assert(frames[j][0] != frames[i][0]);
        }
    }
    xs.unique_seq_to_set();
}

/// Checks split parameters, and gives the threshold as the byte that the
/// dealer takes.
pub fn check_parameters(shares: usize, threshold: usize) -> (r: Result<u8, Error>)
    ensures
        match r {
            Ok(t) => parameter_fault(shares as nat, threshold as nat) is None && t == threshold,
            Err(e) => exists|fault: ParameterFault|
                parameter_fault(shares as nat, threshold as nat) == Some(fault) && e
                    == Error::InvalidParameters(fault),
        },
{
    if threshold > shares {
        return Err(Error::InvalidParameters(ParameterFault::ThresholdAboveShares));
    }
    if threshold < MIN_THRESHOLD {
        return Err(Error::InvalidParameters(ParameterFault::ThresholdBelowMinimum));
    }
    if shares > MAX_SHARES {
        return Err(Error::InvalidParameters(ParameterFault::SharesAboveMaximum));
    }
    Ok(threshold as u8)
}

/// Splits a secret into shares, with the coefficients drawn from the given
/// seed.
///
/// Fails with `InvalidParameters` exactly when the threshold is above the
/// share count or under three, or the share count is above 255. Otherwise
/// deals exactly `shares` shares: share `i` has x-coordinate `i + 1`, and any
/// `threshold` or more of them reconstruct the secret. The same arguments
/// give the same shares. A seed must never be used for two secrets.
pub fn split_secret_seeded(secret: &[u8], shares: usize, threshold: usize, seed: &[u8; 32]) -> (r:
    Result<Vec<Share>, Error>)
    ensures
        match parameter_fault(shares as nat, threshold as nat) {
            Some(fault) => r == Err::<Vec<Share>, Error>(Error::InvalidParameters(fault)),
            None => r matches Ok(out) && frames(out@) == seeded_deal(
                threshold as u8,
                secret@,
                seed@,
                shares as nat,
            ) && dealt(secret@, shares as nat, threshold as nat, frames(out@)),
        },
{
    let t: u8 = check_parameters(shares, threshold)?;
    Ok(deal(t, secret, seed, shares))
}

/// Splits a secret into shares, given what a draw of a seed from the random
/// source came to.
///
/// The parameters decide first. Where they are sound, a seed is dealt from
/// as `split_secret_seeded` does, and a failed draw is `RandomnessFailure`:
/// nothing is dealt in its place.
pub fn split_secret_drawn(
    secret: &[u8],
    shares: usize,
    threshold: usize,
    drawn: Option<[u8; 32]>,
) -> (r: Result<Vec<Share>, Error>)
    ensures
        match parameter_fault(shares as nat, threshold as nat) {
            Some(fault) => r == Err::<Vec<Share>, Error>(Error::InvalidParameters(fault)),
            None => match drawn {
                Some(seed) => r matches Ok(out) && frames(out@) == seeded_deal(
                    threshold as u8,
                    secret@,
                    seed@,
                    shares as nat,
                ) && dealt(secret@, shares as nat, threshold as nat, frames(out@)),
                None => r == Err::<Vec<Share>, Error>(Error::RandomnessFailure),
            },
        },
{
    match drawn {
        Some(seed) => split_secret_seeded(secret, shares, threshold, &seed),
        None => {
            check_parameters(shares, threshold)?;
            Err(Error::RandomnessFailure)
        },
    }
}

/// Splits a secret into shares, as `split_secret_drawn` does on a seed that
/// the system's random source is asked for, for this one call.
///
/// The parameters are checked before anything is drawn.
pub fn split_secret(secret: &[u8], shares: usize, threshold: usize) -> (r: Result<
    Vec<Share>,
    Error,
>)
    ensures
        match parameter_fault(shares as nat, threshold as nat) {
            Some(fault) => r == Err::<Vec<Share>, Error>(Error::InvalidParameters(fault)),
            None => match r {
                Ok(out) => dealt(secret@, shares as nat, threshold as nat, frames(out@)) && exists|
                    seed: Seq<u8>,
                |
                    frames(out@) == #[trigger] seeded_deal(
                        threshold as u8,
                        secret@,
                        seed,
                        shares as nat,
                    ),
                Err(e) => e == Error::RandomnessFailure,
            },
        },
{
    check_parameters(shares, threshold)?;
    let drawn = draw_seed();
    let r = split_secret_drawn(secret, shares, threshold, drawn);
    proof {
        if let Some(seed) = drawn {
            assert(frames(r.unwrap()@) == seeded_deal(
                threshold as u8,
                secret@,
                seed@,
                shares as nat,
            ));
        }
    }
    r
}

/// The tokens of dealt shares, in the same order.
pub fn encode_shares(shares: &Vec<Share>) -> (r: Vec<String>)
    ensures
        r@.len() == shares@.len(),
        token_frames(texts(r@)) == frames(shares@),
        forall|i: int| 0 <= i < r@.len() ==> token_is_canonical(#[trigger] texts(r@)[i]),
{
    let mut tokens: Vec<String> = Vec::with_capacity(shares.len());
    let mut i: usize = 0;
    while i < shares.len()
        invariant
            0 <= i <= shares.len(),
            tokens@.len() == i,
            forall|j: int|
                0 <= j < i ==> token_frame(#[trigger] tokens@[j]@) == shares@[j]@
                    && token_is_canonical(tokens@[j]@),
        decreases shares.len() - i,
    {
        let token = encode_share(&shares[i]);
        tokens.push(token);
        i += 1;
    }
    assert(token_frames(texts(tokens@)) =~= frames(shares@));
    tokens
}

/// Splits a text secret into tokens: `split_secret_seeded` on the text's
/// UTF-8 bytes, each share then written as a base64 token.
pub fn split_seeded(secret: String, shares: usize, threshold: usize, seed: &[u8; 32]) -> (r: Result<
    Vec<String>,
    Error,
>)
    ensures
        match parameter_fault(shares as nat, threshold as nat) {
            Some(fault) => r == Err::<Vec<String>, Error>(Error::InvalidParameters(fault)),
            None => r matches Ok(tokens) && token_frames(texts(tokens@)) == seeded_deal(
                threshold as u8,
                encode_utf8(secret@),
                seed@,
                shares as nat,
            ) && dealt_tokens(
                encode_utf8(secret@),
                shares as nat,
                threshold as nat,
                texts(tokens@),
            ),
        },
{
    let dealt_shares = split_secret_seeded(secret.as_str().as_bytes(), shares, threshold, seed)?;
    Ok(encode_shares(&dealt_shares))
}

/// Splits a text secret into tokens: `split_secret` on the text's UTF-8
/// bytes, each share then written as a base64 token.
pub fn split(secret: String, shares: usize, threshold: usize) -> (r: Result<Vec<String>, Error>)
    ensures
        match parameter_fault(shares as nat, threshold as nat) {
            Some(fault) => r == Err::<Vec<String>, Error>(Error::InvalidParameters(fault)),
            None => match r {
                Ok(tokens) => dealt_tokens(
                    encode_utf8(secret@),
                    shares as nat,
                    threshold as nat,
                    texts(tokens@),
                ),
                Err(e) => e == Error::RandomnessFailure,
            },
        },
{
    let dealt_shares = split_secret(secret.as_str().as_bytes(), shares, threshold)?;
    Ok(encode_shares(&dealt_shares))
}

/// Checks that shares can be interpolated together: each has a nonzero
/// x-coordinate and a y-value, all have as many y-values as the first, and no
/// two have the same x-coordinate. A share with x-coordinate zero or without
/// y-values is reported first, as `MalformedShare`.
pub fn check_consistent(shares: &Vec<Share>) -> (r: Result<(), Error>)
    ensures
        match r {
            Ok(_) => all_frames_hold_shares(frames(shares@)) && same_length(frames(shares@))
                && distinct_x(frames(shares@)),
            Err(e) => if !all_frames_hold_shares(frames(shares@)) {
                e == Error::MalformedShare
            } else {
                e == Error::InconsistentShares && !(same_length(frames(shares@)) && distinct_x(
                    frames(shares@),
                ))
            },
        },
{
    let ghost fs = frames(shares@);
    let n: usize = shares.len();
    let mut i: usize = 0;
    while i < n
        invariant
            0 <= i <= n,
            n == shares.len(),
            fs == frames(shares@),
            forall|k: int| 0 <= k < i ==> frame_holds_share(#[trigger] fs[k]),
        decreases n - i,
    {
        if shares[i].x == 0 || shares[i].y.len() == 0 {
            assert(!frame_holds_share(fs[i as int]));
            return Err(Error::MalformedShare);
        }
        i += 1;
    }
    let mut i: usize = 0;
    while i < n
        invariant
            0 <= i <= n,
            n == shares.len(),
            fs == frames(shares@),
            all_frames_hold_shares(fs),
            forall|k: int| 0 <= k < i ==> (#[trigger] fs[k]).len() == fs[0].len(),
            forall|a: int, b: int| 0 <= a < b < i ==> (#[trigger] fs[a])[0] != (#[trigger] fs[b])[0],
        decreases n - i,
    {
        if shares[i].y.len() != shares[0].y.len() {
            assert(fs[i as int].len() != fs[0].len());
            return Err(Error::InconsistentShares);
        }
        let mut j: usize = 0;
        while j < i
            invariant
                0 <= j <= i < n,
                n == shares.len(),
                fs == frames(shares@),
                all_frames_hold_shares(fs),
                forall|a: int| 0 <= a < j ==> (#[trigger] fs[a])[0] != fs[i as int][0],
            decreases i - j,
        {
            if shares[j].x == shares[i].x {
                assert(fs[j as int][0] == fs[i as int][0]);
                return Err(Error::InconsistentShares);
            }
            j += 1;
        }
        i += 1;
    }
    Ok(())
}

/// Recovers the secret from shares.
///
/// Fails with `InsufficientShares` on fewer than three shares, with
/// `MalformedShare` if a share has x-coordinate zero or no y-value, with
/// `InconsistentShares` if the shares differ in length or two have the same
/// x-coordinate. Otherwise returns the interpolation through all the shares,
/// one byte for each y-value of a share: the secret, if they are at least a
/// threshold of authentic shares of one split.
pub fn recover(shares: &Vec<Share>) -> (r: Result<Vec<u8>, Error>)
    ensures
        shares@.len() < 3 ==> r == Err::<Vec<u8>, Error>(Error::InsufficientShares),
        r matches Ok(secret) ==> secret@.len() == shares@[0].y@.len(),
        match r {
            Ok(secret) => recover_outcome(frames(shares@)) == Ok::<Seq<u8>, Error>(secret@),
            Err(e) => recover_outcome(frames(shares@)) == Err::<Seq<u8>, Error>(e),
        },
{
    if shares.len() < MIN_THRESHOLD {
        return Err(Error::InsufficientShares);
    }
    check_consistent(shares)?;
    let low: usize = shares.len() % 256;
    proof {
        let fs = frames(shares@);
        lemma_distinct_x_count(fs);
        assert forall|i: int| 0 <= i < fs.len() implies (#[trigger] fs[i]).len() >= 2 by {
            assert(frame_holds_share(fs[i]));
        }
    }
    // The interpolation holds a threshold byte against the number of
    // different x-coordinates. The shares were checked, so all of them count
    // and a value comes back.
    match interpolate(low as u8, shares) {
        Some(secret) => Ok(secret),
        None => Err(Error::InconsistentShares),
    }
}

/// Reads every token as a share, in order. Fails with `MalformedShare`
/// exactly when some token holds no share.
pub fn decode_shares(tokens: &Vec<String>) -> (r: Result<Vec<Share>, Error>)
    ensures
        match r {
            Ok(shares) => all_tokens_hold_shares(texts(tokens@)) && frames(shares@)
                == token_frames(texts(tokens@)),
            Err(e) => !all_tokens_hold_shares(texts(tokens@)) && e == Error::MalformedShare,
        },
{
    let ghost ts = texts(tokens@);
    let mut shares: Vec<Share> = Vec::with_capacity(tokens.len());
    let mut i: usize = 0;
    while i < tokens.len()
        invariant
            0 <= i <= tokens.len(),
            ts == texts(tokens@),
            shares@.len() == i,
            forall|j: int|
                0 <= j < i ==> token_holds_share(#[trigger] ts[j]) && shares@[j]@ == token_frame(
                    ts[j],
                ),
        decreases tokens.len() - i,
    {
        match decode_share(tokens[i].as_str()) {
            Ok(share) => shares.push(share),
            Err(e) => {
                assert(!token_holds_share(ts[i as int]));
                return Err(e);
            },
        }
        i += 1;
    }
    assert(frames(shares@) =~= token_frames(ts));
    Ok(shares)
}

/// Recovers a text secret from tokens.
///
/// Fails with `InsufficientShares` on fewer than three tokens; else with
/// `MalformedShare` if a token is no base64 text of a share; else as
/// `recover` does on the shares; else with `NonUtf8Secret` if the recovered
/// bytes are no UTF-8 text.
pub fn combine(shares: Vec<String>) -> (r: Result<String, Error>)
    ensures
        shares@.len() < 3 ==> r == Err::<String, Error>(Error::InsufficientShares),
        shares@.len() >= 3 && !all_tokens_hold_shares(texts(shares@)) ==> r == Err::<
            String,
            Error,
        >(Error::MalformedShare),
        match r {
            Ok(secret) => combine_outcome(texts(shares@)) == Ok::<Seq<char>, Error>(secret@),
            Err(e) => combine_outcome(texts(shares@)) == Err::<Seq<char>, Error>(e),
        },
{
    if shares.len() < MIN_THRESHOLD {
        return Err(Error::InsufficientShares);
    }
    let parsed = decode_shares(&shares)?;
    let bytes = recover(&parsed)?;
    secret_from_bytes(bytes)
}

} // verus!
