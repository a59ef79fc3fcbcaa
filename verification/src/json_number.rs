use vstd::prelude::*;

verus! {

/// How far the text of a decimal number has been read.
#[derive(Debug, Clone, Copy, PartialEq, Eq, Structural)]
pub enum Phase {
    /// Nothing yet.
    Start,
    /// One or more digits.
    Whole,
    /// Digits and a point.
    Point,
    /// Digits, a point and one or more digits.
    Fraction,
    /// No number.
    Broken,
}

/// The phase after one more byte.
pub open spec fn phase_step(phase: Phase, byte: u8) -> Phase {
    if 0x30 <= byte <= 0x39 {
        match phase {
            Phase::Start => Phase::Whole,
            Phase::Whole => Phase::Whole,
            Phase::Point => Phase::Fraction,
            Phase::Fraction => Phase::Fraction,
            Phase::Broken => Phase::Broken,
        }
    } else if byte == 0x2e && phase == Phase::Whole {
        Phase::Point
    } else {
        Phase::Broken
    }
}

/// The phase that a text leads to, byte by byte.
pub open spec fn phase_of(bytes: Seq<u8>) -> Phase
    decreases bytes.len(),
{
    if bytes.len() == 0 {
        Phase::Start
    } else {
        phase_step(phase_of(bytes.drop_last()), bytes.last())
    }
}

/// A text without the minus sign at its front, if it has one.
pub open spec fn unsigned(bytes: Seq<u8>) -> Seq<u8> {
    if bytes.len() > 0 && bytes[0] == 0x2du8 {
        bytes.subrange(1, bytes.len() as int)
    } else {
        bytes
    }
}

/// Whether bytes are the text of a number as an `F64` holds it: an
/// optional minus sign, and then `NaN`, `inf`, or digits with an optional
/// fraction of a point and digits.
pub open spec fn number_bytes(bytes: Seq<u8>) -> bool {
    let body = unsigned(bytes);
    ||| body == seq![0x4eu8, 0x61u8, 0x4eu8]
    ||| body == seq![0x69u8, 0x6eu8, 0x66u8]
    ||| phase_of(body) == Phase::Whole
    ||| phase_of(body) == Phase::Fraction
}

/// Whether a text is the text of a number as an `F64` holds it.
pub open spec fn number_text(text: Seq<char>) -> bool {
    number_bytes(vstd::utf8::encode_utf8(text))
}

/// The number that the digits of an `F64` stand for: the digits
/// themselves, and zero where they are not the text of a number.
pub open spec fn number_or_zero(text: Seq<char>) -> Seq<char> {
    if number_text(text) {
        text
    } else {
        "0"@
    }
}

/// `0` is the text of a number.
pub proof fn lemma_zero_is_number()
    ensures
        number_text("0"@),
        number_or_zero("0"@) == "0"@,
{
    reveal_strlit("0");
    let text = "0"@;
    assert(text.len() == 1);
    assert(text[0] == '0');
    assert(vstd::utf8::is_ascii_chars(text));
    vstd::utf8::is_ascii_chars_encode_utf8(text);
    let bytes = vstd::utf8::encode_utf8(text);
    assert(bytes.len() == 1);
    assert(bytes[0] == text[0] as u8);
    assert(bytes[0] == 0x30u8);
    assert(unsigned(bytes) == bytes);
    assert(bytes.drop_last().len() == 0);
    assert(phase_of(bytes.drop_last()) == Phase::Start);
    assert(phase_of(bytes) == Phase::Whole);
}

/// Whether a text is the text of a number as an `F64` holds it.
pub fn is_number_text(text: &str) -> (yes: bool)
    ensures
        yes == number_text(text@),
{
    let bytes = text.as_bytes();
    let total = bytes.len();
    let start: usize = if total > 0 && bytes[0] == 0x2d {
        1
    } else {
        0
    };
    let ghost body = unsigned(bytes@);
    assert(body =~= bytes@.subrange(start as int, total as int));
    let named = total - start == 3 && ((bytes[start] == 0x4e && bytes[start + 1] == 0x61 && bytes[start
        + 2] == 0x4e) || (bytes[start] == 0x69 && bytes[start + 1] == 0x6e && bytes[start + 2]
        == 0x66));
    proof {
        if named {
            assert(body =~= seq![0x4eu8, 0x61u8, 0x4eu8] || body =~= seq![0x69u8, 0x6eu8, 0x66u8]);
        } else if body.len() == 3 {
            assert(body[0] == bytes@[start as int] && body[1] == bytes@[start + 1] && body[2]
                == bytes@[start + 2]);
            assert(seq![0x4eu8, 0x61u8, 0x4eu8][0] == 0x4eu8 && seq![0x4eu8, 0x61u8, 0x4eu8][1] == 0x61u8
                && seq![0x4eu8, 0x61u8, 0x4eu8][2] == 0x4eu8);
            assert(seq![0x69u8, 0x6eu8, 0x66u8][0] == 0x69u8 && seq![0x69u8, 0x6eu8, 0x66u8][1] == 0x6eu8
                && seq![0x69u8, 0x6eu8, 0x66u8][2] == 0x66u8);
        }
    }
    let mut phase = Phase::Start;
    let mut i: usize = start;
    assert(body.take(0) =~= Seq::<u8>::empty());
    while i < total
        invariant
            start <= i <= total,
            total == bytes@.len(),
            body == bytes@.subrange(start as int, total as int),
            phase == phase_of(body.take(i - start)),
        decreases total - i,
    {
        proof {
            assert(body.take(i - start + 1).drop_last() =~= body.take(i - start));
            assert(body.take(i - start + 1).last() == bytes@[i as int]);
        }
        let byte = bytes[i];
        phase = if 0x30 <= byte && byte <= 0x39 {
            match phase {
                Phase::Start => Phase::Whole,
                Phase::Whole => Phase::Whole,
                Phase::Point => Phase::Fraction,
                Phase::Fraction => Phase::Fraction,
                Phase::Broken => Phase::Broken,
            }
        } else if byte == 0x2e && phase == Phase::Whole {
            Phase::Point
        } else {
            Phase::Broken
        };
        i += 1;
    }
    assert(body.take(i - start) =~= body);
    named || phase == Phase::Whole || phase == Phase::Fraction
}

/// The digits of a number: the text itself, and `0` where the text is not
/// the text of a number.
pub fn digits_or_zero<'a>(text: &'a str) -> (digits: &'a str)
    ensures
        digits@ == number_or_zero(text@),
        number_text(digits@),
{
    if is_number_text(text) {
        text
    } else {
        proof {
            lemma_zero_is_number();
        }
        "0"
    }
}

} // verus!
