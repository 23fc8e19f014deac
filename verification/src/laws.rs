//! What holds of the filter as a whole.

use crate::biquad::{
    history_after, lemma_flat_histories, lemma_flat_output, lemma_history_continues,
    lemma_history_len, lemma_history_prefix, lemma_mod_shift, output_at, outputs, resized,
    response, BiquadView, Coefficients, History,
};
use crate::design::{
    amplitude_spec, lemma_amplitude_within, lemma_design_exists, lemma_root_exists,
    lemma_zero_gain_design, lemma_zero_gain_exists, parameters_valid, radicand_spec,
    GAIN_DB_MODERATE,
};
use crate::fixed::ONE;
use crate::filter::HighShelf2Config;
use crate::format::{
    f32_exponent, lemma_decode_in_range, lemma_decode_is_stable, lemma_encode_in_range,
    lemma_integer_round_trip, lemma_single_round_trip, word_bits, Format,
};
use vstd::arithmetic::power2::{lemma_pow2_pos, pow2};
use vstd::prelude::*;

verus! {

/// A gain of zero decibels is the identity.  Whatever the format, the
/// channel count, the sample rate, the corner frequency and the slope, as
/// long as they are valid, the configuration is accepted, its coefficients
/// are flat, and the silent history of a fresh channel remembers outputs
/// equal to its inputs.  `law_zero_gain_identity` says what follows.
pub proof fn law_zero_gain_is_flat(config: HighShelf2Config)
    requires
        config.gain_db == 0,
        config.channels >= 1,
        parameters_valid(
            config.sample_rate as int,
            config.shelf_slope as int,
            config.frequency as int,
        ),
    ensures
        config.accepted(),
        config.design()->0.flat(),
        History::silent().balanced(),
{
    lemma_zero_gain_exists(
        config.sample_rate as int,
        config.shelf_slope as int,
        config.frequency as int,
    );
    lemma_zero_gain_design(
        config.sample_rate as int,
        config.shelf_slope as int,
        config.frequency as int,
    );
}

/// A filter with flat coefficients whose channels remember outputs equal to
/// their inputs hands every word on: a zero-gain filter that is fresh, or
/// that has filtered any input since it was fresh.  The signal value of
/// each stored word is the signal value of the input word, for every word
/// of every format.  The stored word is the input word itself in the
/// integer formats, and in single precision for every magnitude from 2^-9
/// up to 2^15.  And the channels go on remembering outputs equal to their
/// inputs, so the same holds of the next call.
pub proof fn law_zero_gain_identity(
    c: Coefficients,
    f: Format,
    history: Seq<History>,
    input: Seq<i32>,
    k: int,
)
    requires
        c.flat(),
        history.len() >= 1,
        forall|i: int| 0 <= i < history.len() ==> (#[trigger] history[i]).balanced(),
        0 <= k < input.len(),
    ensures
        ({
            let stored = output_at(c, f, history, input, k);
            &&& f.decode_spec(stored as int) == f.decode_spec(input[k] as int)
            &&& stored == f.encode_spec(f.decode_spec(input[k] as int))
            &&& f != Format::F32 && f.min_word() <= input[k] <= f.max_word() ==> stored
                == input[k]
            &&& f == Format::F32 && 118 <= f32_exponent(word_bits(input[k] as int)) <= 141
                ==> stored == input[k]
        }),
        forall|i: int|
            0 <= i < history.len() ==> (#[trigger] history_after(
                c,
                f,
                history,
                input,
                input.len(),
            )[i]).balanced(),
{
    lemma_flat_output(c, f, history, input, k);
    lemma_flat_histories(c, f, history, input, input.len());
    lemma_decode_is_stable(f, input[k] as int);
    if f != Format::F32 && f.min_word() <= input[k] <= f.max_word() {
        lemma_integer_round_trip(f, input[k] as int);
    }
    if f == Format::F32 && 118 <= f32_exponent(word_bits(input[k] as int)) <= 141 {
        lemma_decode_in_range(f, input[k] as int);
        lemma_single_round_trip(word_bits(input[k] as int));
    }
}

/// Filtering is a function of the filter and the input.  The contracts of
/// `HighShelf2::new` and of the processing functions carry this: they give
/// the coefficients, the stored words and the histories as spec functions
/// of the configuration, of what the filter held and of the input words, and
/// of nothing else.  Written out: two filters that hold the same
/// coefficients, format and histories store the same words for the same
/// input and end with the same histories.
pub proof fn law_deterministic(
    first: BiquadView,
    second: BiquadView,
    first_input: Seq<i32>,
    second_input: Seq<i32>,
)
    requires
        first == second,
        first_input == second_input,
    ensures
        outputs(first.coefficients, first.format, first.history, first_input) == outputs(
            second.coefficients,
            second.format,
            second.history,
            second_input,
        ),
        history_after(
            first.coefficients,
            first.format,
            first.history,
            first_input,
            first_input.len(),
        ) == history_after(
            second.coefficients,
            second.format,
            second.history,
            second_input,
            second_input.len(),
        ),
{
}

/// A stream may be cut anywhere between two frames: filtering `head` and
/// then `tail` with the histories that `head` left stores the words, and
/// leaves the histories, that filtering `head + tail` in one call does.
pub proof fn law_streaming(
    c: Coefficients,
    f: Format,
    init: Seq<History>,
    head: Seq<i32>,
    tail: Seq<i32>,
)
    requires
        init.len() >= 1,
        head.len() % init.len() == 0,
    ensures
        ({
            let middle = history_after(c, f, init, head, head.len());
            &&& outputs(c, f, init, head + tail) == outputs(c, f, init, head) + outputs(
                c,
                f,
                middle,
                tail,
            )
            &&& history_after(c, f, init, head + tail, (head + tail).len()) == history_after(
                c,
                f,
                middle,
                tail,
                tail.len(),
            )
        }),
{
    let middle = history_after(c, f, init, head, head.len());
    let whole = head + tail;
    lemma_history_len(c, f, init, head, head.len());
    lemma_history_continues(c, f, init, head, tail, tail.len());
    assert forall|k: int| 0 <= k < whole.len() implies outputs(c, f, init, whole)[k] == (outputs(
        c,
        f,
        init,
        head,
    ) + outputs(c, f, middle, tail))[k] by {
        if k < head.len() {
            lemma_history_prefix(c, f, init, whole, head, k as nat);
        } else {
            let m = k - head.len();
            lemma_history_continues(c, f, init, head, tail, m as nat);
            lemma_mod_shift(head.len() as int, m, init.len() as int);
            assert(whole[k] == tail[m]);
        }
    }
    assert(outputs(c, f, init, whole) =~= outputs(c, f, init, head) + outputs(c, f, middle, tail));
}

/// The first word stored after a redesign is the response of the new
/// coefficients to what the channel remembers from before: the output
/// continues from the samples already heard, it does not start anew.
pub proof fn law_output_continues(
    c: Coefficients,
    f: Format,
    history: Seq<History>,
    input: Seq<i32>,
)
    requires
        history.len() >= 1,
        input.len() >= 1,
    ensures
        output_at(c, f, history, input, 0) == f.encode_spec(
            response(c, history[0], f.decode_spec(input[0] as int)),
        ),
{
    lemma_encode_in_range(f, response(c, history[0], f.decode_spec(input[0] as int)));
}

/// A redesign keeps what the channels remember: a channel that exists
/// before and after keeps its history, a channel that is new starts silent,
/// and with the channel count unchanged the histories are unchanged.
pub proof fn law_reinit_continuity(history: Seq<History>, channels: nat)
    ensures
        resized(history, channels).len() == channels,
        forall|i: int|
            0 <= i < channels && i < history.len() ==> resized(history, channels)[i] == history[i],
        forall|i: int|
            history.len() <= i < channels ==> resized(history, channels)[i] == History::silent(),
        channels == history.len() ==> resized(history, channels) == history,
{
    if channels == history.len() {
        assert(resized(history, channels) =~= history);
    }
}

/// A filter can be built from every configuration that has a channel, a
/// positive sample rate, a corner frequency above zero and below half the
/// sample rate, a positive slope and a gain of at most 48 dB in either
/// direction, unless the square root in the design has no value.  It has
/// one for every slope of at most 1.
pub proof fn law_moderate_configuration_accepted(config: HighShelf2Config)
    requires
        config.channels >= 1,
        parameters_valid(
            config.sample_rate as int,
            config.shelf_slope as int,
            config.frequency as int,
        ),
        -GAIN_DB_MODERATE <= config.gain_db <= GAIN_DB_MODERATE,
    ensures
        config.accepted() <==> radicand_spec(
            amplitude_spec(config.gain_db as int),
            config.shelf_slope as int,
        ) >= 0,
        config.shelf_slope <= ONE ==> config.accepted(),
{
    let a = amplitude_spec(config.gain_db as int);
    if config.shelf_slope <= ONE {
        lemma_amplitude_within(config.gain_db as int, GAIN_DB_MODERATE as int, 4);
        lemma_pow2_pos(4);
        assert(a > 0) by (nonlinear_arith)
            requires
                ONE <= a * pow2(4),
                pow2(4) > 0,
        ;
        lemma_root_exists(a, config.shelf_slope as int);
    }
    if radicand_spec(a, config.shelf_slope as int) >= 0 {
        lemma_design_exists(
            config.sample_rate as int,
            config.gain_db as int,
            config.shelf_slope as int,
            config.frequency as int,
        );
    }
}

} // verus!
