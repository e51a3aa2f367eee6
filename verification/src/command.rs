//! The text messages by which users change the room.

use crate::text::{
    chars_of, decimal, find_colon, first_part, lemma_decimal_has_no_colon,
    lemma_more_parts, lemma_number_of_decimal, lemma_one_part, lemma_parts, number, number_up_to,
    read_number, second_part,
};
use vstd::prelude::*;
use vstd::string::*;
use vstd::utf8::{encode_utf8, is_char_boundary};

verus! {

/// What a user asks for.
#[derive(Debug, PartialEq, Eq)]
pub enum Command {
    Rename(String),
    Bpm(u32),
    Counts(u32),
    Buffer(usize),
    /// The tempo, as it was written, and the beats of a bar.
    Metronome(String, usize),
    Offset(usize),
    Start,
    StopSync,
    /// Stop the recording, at once or not.
    Stop(bool),
    End,
    Backing,
    /// The name of a user, and a number that is added to that user's place in the recording.
    Emergency(String, usize),
    Time(usize),
    /// The audio is packed, or not.
    Packed(bool),
    AudienceHears(bool),
    /// Nothing that means anything.
    Unknown,
}

/// What a text asks for.
pub ghost enum Meaning {
    Rename(Seq<char>),
    Bpm(nat),
    Counts(nat),
    Buffer(nat),
    Metronome(Seq<char>, nat),
    Offset(nat),
    Start,
    StopSync,
    Stop(bool),
    End,
    Backing,
    Emergency(Seq<char>, nat),
    Time(nat),
    Packed(bool),
    AudienceHears(bool),
    Unknown,
}

impl View for Command {
    type V = Meaning;

    open spec fn view(&self) -> Meaning {
        match self {
            Command::Rename(name) => Meaning::Rename(name@),
            Command::Bpm(n) => Meaning::Bpm(*n as nat),
            Command::Counts(n) => Meaning::Counts(*n as nat),
            Command::Buffer(n) => Meaning::Buffer(*n as nat),
            Command::Metronome(bpm, sig) => Meaning::Metronome(bpm@, *sig as nat),
            Command::Offset(n) => Meaning::Offset(*n as nat),
            Command::Start => Meaning::Start,
            Command::StopSync => Meaning::StopSync,
            Command::Stop(instant) => Meaning::Stop(*instant),
            Command::End => Meaning::End,
            Command::Backing => Meaning::Backing,
            Command::Emergency(name, n) => Meaning::Emergency(name@, *n as nat),
            Command::Time(n) => Meaning::Time(*n as nat),
            Command::Packed(p) => Meaning::Packed(*p),
            Command::AudienceHears(h) => Meaning::AudienceHears(*h),
            Command::Unknown => Meaning::Unknown,
        }
    }
}

/// The number behind the name of an emergency: none is zero. `None` where it is no number.
pub open spec fn emergency_number(rest: Seq<char>) -> Option<nat> {
    match second_part(rest) {
        Some(part) => number_up_to(part, usize::MAX as nat),
        None => Some(0),
    }
}

/// What a text asks for. The first four characters say what it is about. A text whose number cannot
/// be read asks for nothing.
pub open spec fn meaning(text: Seq<char>) -> Meaning {
    let tag = text.take(4);
    let rest = text.skip(4);
    if text.len() < 4 {
        Meaning::Unknown
    } else if tag == "usr:"@ {
        Meaning::Rename(rest)
    } else if tag == "bpm:"@ {
        match number_up_to(rest, u32::MAX as nat) {
            Some(n) => Meaning::Bpm(n),
            None => Meaning::Unknown,
        }
    } else if tag == "cnt:"@ {
        match number_up_to(rest, u32::MAX as nat) {
            Some(n) => Meaning::Counts(n),
            None => Meaning::Unknown,
        }
    } else if tag == "buf:"@ {
        match number_up_to(rest, usize::MAX as nat) {
            Some(n) => Meaning::Buffer(n),
            None => Meaning::Unknown,
        }
    } else if tag == "met:"@ {
        match second_part(rest) {
            Some(part) => match number_up_to(part, usize::MAX as nat) {
                Some(sig) => Meaning::Metronome(first_part(rest), sig),
                None => Meaning::Unknown,
            },
            None => Meaning::Unknown,
        }
    } else if tag == "off:"@ {
        match number_up_to(rest, usize::MAX as nat) {
            Some(n) => Meaning::Offset(n),
            None => Meaning::Unknown,
        }
    } else if tag == "srt:"@ {
        Meaning::Start
    } else if tag == "sts:"@ {
        Meaning::StopSync
    } else if tag == "stp:"@ {
        Meaning::Stop(rest.len() > 0 && rest[0] == 't')
    } else if tag == "end:"@ {
        Meaning::End
    } else if tag == "bck:"@ {
        Meaning::Backing
    } else if tag == "emg:"@ {
        match emergency_number(rest) {
            Some(n) => Meaning::Emergency(first_part(rest), n),
            None => Meaning::Unknown,
        }
    } else if tag == "tim:"@ {
        match number_up_to(rest, usize::MAX as nat) {
            Some(n) => Meaning::Time(n),
            None => Meaning::Unknown,
        }
    } else if tag == "ops:"@ {
        Meaning::Packed(true)
    } else if tag == "nps:"@ {
        Meaning::Packed(false)
    } else if tag == "abk:"@ {
        Meaning::AudienceHears(true)
    } else if tag == "nbk:"@ {
        Meaning::AudienceHears(false)
    } else {
        Meaning::Unknown
    }
}

/// A text that can be read: its fourth byte ends a character, and what stands behind the name of
/// an emergency is a number.
pub open spec fn readable(text: Seq<char>) -> bool {
    &&& encode_utf8(text).len() >= 4 ==> is_char_boundary(encode_utf8(text), 4)
    &&& text.len() >= 4 && text.take(4) == "emg:"@ ==> emergency_number(text.skip(4)) is Some
}

/// Whether a text begins with a tag of four characters.
fn has_tag(chars: &Vec<char>, tag: &str) -> (r: bool)
    requires
        chars@.len() >= 4,
        tag@.len() == 4,
    ensures
        r == (chars@.take(4) == tag@),
{
    let r = chars[0] == tag.get_char(0) && chars[1] == tag.get_char(1) && chars[2] == tag.get_char(2)
        && chars[3] == tag.get_char(3);
    proof {
        if r {
            assert(chars@.take(4) =~= tag@);
        } else {
            assert(chars@.take(4)[0] == chars@[0]);
            assert(chars@.take(4)[1] == chars@[1]);
            assert(chars@.take(4)[2] == chars@[2]);
            assert(chars@.take(4)[3] == chars@[3]);
        }
    }
    r
}

/// A number of the word size.
fn read_word(s: &[char]) -> (r: Option<usize>)
    ensures
        r matches Some(n) ==> number_up_to(s@, usize::MAX as nat) == Some(n as nat),
        r is None ==> number_up_to(s@, usize::MAX as nat) is None,
{
    match read_number(s, usize::MAX as u64) {
        Some(n) => Some(n as usize),
        None => None,
    }
}

/// A number of 32 bits.
fn read_u32(s: &[char]) -> (r: Option<u32>)
    ensures
        r matches Some(n) ==> number_up_to(s@, u32::MAX as nat) == Some(n as nat),
        r is None ==> number_up_to(s@, u32::MAX as nat) is None,
{
    match read_number(s, u32::MAX as u64) {
        Some(n) => Some(n as u32),
        None => None,
    }
}

/// The number behind the first colon: `None` where there is no colon, `Some(None)` where there is
/// no number.
fn read_second(rest: &[char]) -> (r: Option<Option<usize>>)
    ensures
        r is None == second_part(rest@) is None,
        r matches Some(Some(n)) ==> number_up_to(second_part(rest@)->0, usize::MAX as nat) == Some(
            n as nat,
        ),
        r matches Some(None) ==> number_up_to(second_part(rest@)->0, usize::MAX as nat) is None,
{
    let i: usize = find_colon(rest, 0);
    if i >= rest.len() {
        return None;
    }
    let j: usize = find_colon(rest, i + 1);
    Some(read_word(vstd::slice::slice_subrange(rest, i + 1, j)))
}

/// What follows the tag.
fn rest_of(chars: &Vec<char>) -> (rest: &[char])
    requires
        chars@.len() >= 4,
    ensures
        rest@ == chars@.skip(4),
{
    vstd::slice::slice_subrange(chars.as_slice(), 4, chars.len())
}

/// What stands before the first colon of what follows the tag.
fn first_of(text: &str, chars: &Vec<char>) -> (s: String)
    requires
        chars@ == text@,
        text@.len() >= 4,
    ensures
        s@ == first_part(text@.skip(4)),
{
    let rest = rest_of(chars);
    let i: usize = find_colon(rest, 0);
    let count: usize = chars.len();
    proof {
        assert(text@.subrange(4, 4 + i) =~= rest@.take(i as int));
        assert(4 + i <= count);
    }
    text.substring_char(4, 4 + i).to_string()
}

/// Whether a text can be read.
pub fn can_read(text: &str) -> (r: bool)
    ensures
        r == readable(text@),
{
    if text.as_bytes().len() >= 4 && !text.is_char_boundary(4) {
        return false;
    }
    let chars = chars_of(text);
    if chars.len() < 4 {
        return true;
    }
    proof {
        reveal_strlit("emg:");
    }
    if has_tag(&chars, "emg:") {
        match read_second(rest_of(&chars)) {
            Some(None) => false,
            _ => true,
        }
    } else {
        true
    }
}

/// Reads what a text asks for.
pub fn read_command(text: &str) -> (command: Command)
    requires
        readable(text@),
    ensures
        command@ == meaning(text@),
{
    let chars = chars_of(text);
    if chars.len() < 4 {
        return Command::Unknown;
    }
    proof {
        reveal_strlit("usr:");
        reveal_strlit("bpm:");
        reveal_strlit("cnt:");
        reveal_strlit("buf:");
        reveal_strlit("met:");
        reveal_strlit("off:");
        reveal_strlit("srt:");
        reveal_strlit("sts:");
        reveal_strlit("stp:");
        reveal_strlit("end:");
        reveal_strlit("bck:");
        reveal_strlit("emg:");
        reveal_strlit("tim:");
        reveal_strlit("ops:");
        reveal_strlit("nps:");
        reveal_strlit("abk:");
        reveal_strlit("nbk:");
    }
    let rest = rest_of(&chars);
    if has_tag(&chars, "usr:") {
        assert(text@.subrange(4, text@.len() as int) =~= text@.skip(4));
        Command::Rename(text.substring_char(4, chars.len()).to_string())
    } else if has_tag(&chars, "bpm:") {
        match read_u32(rest) {
            Some(n) => Command::Bpm(n),
            None => Command::Unknown,
        }
    } else if has_tag(&chars, "cnt:") {
        match read_u32(rest) {
            Some(n) => Command::Counts(n),
            None => Command::Unknown,
        }
    } else if has_tag(&chars, "buf:") {
        match read_word(rest) {
            Some(n) => Command::Buffer(n),
            None => Command::Unknown,
        }
    } else if has_tag(&chars, "met:") {
        match read_second(rest) {
            Some(Some(sig)) => Command::Metronome(first_of(text, &chars), sig),
            _ => Command::Unknown,
        }
    } else if has_tag(&chars, "off:") {
        match read_word(rest) {
            Some(n) => Command::Offset(n),
            None => Command::Unknown,
        }
    } else if has_tag(&chars, "srt:") {
        Command::Start
    } else if has_tag(&chars, "sts:") {
        Command::StopSync
    } else if has_tag(&chars, "stp:") {
        Command::Stop(rest.len() > 0 && rest[0] == 't')
    } else if has_tag(&chars, "end:") {
        Command::End
    } else if has_tag(&chars, "bck:") {
        Command::Backing
    } else if has_tag(&chars, "emg:") {
        let n: usize = match read_second(rest) {
            Some(Some(n)) => n,
            _ => 0,
        };
        Command::Emergency(first_of(text, &chars), n)
    } else if has_tag(&chars, "tim:") {
        match read_word(rest) {
            Some(n) => Command::Time(n),
            None => Command::Unknown,
        }
    } else if has_tag(&chars, "ops:") {
        Command::Packed(true)
    } else if has_tag(&chars, "nps:") {
        Command::Packed(false)
    } else if has_tag(&chars, "abk:") {
        Command::AudienceHears(true)
    } else if has_tag(&chars, "nbk:") {
        Command::AudienceHears(false)
    } else {
        Command::Unknown
    }
}

/// A tag is read off the front of a text.
proof fn lemma_tag(tag: Seq<char>, rest: Seq<char>)
    requires
        tag.len() == 4,
    ensures
        (tag + rest).take(4) == tag,
        (tag + rest).skip(4) == rest,
{
    assert((tag + rest).take(4) =~= tag);
    assert((tag + rest).skip(4) =~= rest);
}

/// What everybody is told of the tempo, the count-in and the buffer asks, sent back, for the same
/// settings.
pub proof fn lemma_settings_read_back(n: nat)
    ensures
        n <= u32::MAX ==> meaning("bpm:"@ + decimal(n)) == Meaning::Bpm(n),
        n <= u32::MAX ==> meaning("cnt:"@ + decimal(n)) == Meaning::Counts(n),
        n <= usize::MAX ==> meaning("buf:"@ + decimal(n)) == Meaning::Buffer(n),
{
    reveal_strlit("usr:");
    reveal_strlit("bpm:");
    reveal_strlit("cnt:");
    reveal_strlit("buf:");
    lemma_number_of_decimal(n);
    lemma_tag("bpm:"@, decimal(n));
    lemma_tag("cnt:"@, decimal(n));
    lemma_tag("buf:"@, decimal(n));
    assert("bpm:"@[0] != "usr:"@[0]);
    assert("cnt:"@[0] != "usr:"@[0]);
    assert("cnt:"@[0] != "bpm:"@[0]);
    assert("buf:"@[0] != "usr:"@[0]);
    assert("buf:"@[1] != "bpm:"@[1]);
    assert("buf:"@[0] != "cnt:"@[0]);
}

/// What everybody is told of a metronome asks, sent back, for the same metronome, where no colon
/// stands in the tempo.
pub proof fn lemma_metronome_reads_back(bpm: Seq<char>, sig: nat)
    requires
        forall|i: int| 0 <= i < bpm.len() ==> bpm[i] != ':',
        sig <= usize::MAX,
    ensures
        meaning("met:"@ + bpm + ":"@ + decimal(sig)) == Meaning::Metronome(bpm, sig),
{
    reveal_strlit("usr:");
    reveal_strlit("bpm:");
    reveal_strlit("cnt:");
    reveal_strlit("buf:");
    reveal_strlit("met:");
    reveal_strlit(":");
    let rest = bpm.push(':') + decimal(sig);
    assert("met:"@ + bpm + ":"@ + decimal(sig) =~= "met:"@ + rest);
    lemma_number_of_decimal(sig);
    lemma_decimal_has_no_colon(sig);
    lemma_parts(bpm, decimal(sig));
    lemma_tag("met:"@, rest);
    assert("met:"@[0] != "usr:"@[0]);
    assert("met:"@[0] != "bpm:"@[0]);
    assert("met:"@[0] != "cnt:"@[0]);
    assert("met:"@[0] != "buf:"@[0]);
}

/// The tag that a text begins with says what the rest means.
pub proof fn lemma_what_tags_mean(rest: Seq<char>)
    ensures
        meaning("usr:"@ + rest) == Meaning::Rename(rest),
        meaning("srt:"@ + rest) == Meaning::Start,
        meaning("sts:"@ + rest) == Meaning::StopSync,
        meaning("stp:"@ + rest) == Meaning::Stop(rest.len() > 0 && rest[0] == 't'),
        meaning("end:"@ + rest) == Meaning::End,
        meaning("bck:"@ + rest) == Meaning::Backing,
        meaning("ops:"@ + rest) == Meaning::Packed(true),
        meaning("nps:"@ + rest) == Meaning::Packed(false),
        meaning("abk:"@ + rest) == Meaning::AudienceHears(true),
        meaning("nbk:"@ + rest) == Meaning::AudienceHears(false),
{
    lemma_tags_differ();
    lemma_tag("usr:"@, rest);
    lemma_tag("srt:"@, rest);
    lemma_tag("sts:"@, rest);
    lemma_tag("stp:"@, rest);
    lemma_tag("end:"@, rest);
    lemma_tag("bck:"@, rest);
    lemma_tag("ops:"@, rest);
    lemma_tag("nps:"@, rest);
    lemma_tag("abk:"@, rest);
    lemma_tag("nbk:"@, rest);
}

/// The number of a tag, made up of its four characters.
pub open spec fn tag_code(t: Seq<char>) -> int {
    (t[0] as int) * 1000000000 + (t[1] as int) * 1000000 + (t[2] as int) * 1000 + (t[3] as int)
}

/// The tags have four characters each, and no two are the same.
proof fn lemma_tags_differ()
    ensures
        "usr:"@.len() == 4,
        "bpm:"@.len() == 4,
        "cnt:"@.len() == 4,
        "buf:"@.len() == 4,
        "met:"@.len() == 4,
        "off:"@.len() == 4,
        "srt:"@.len() == 4,
        "sts:"@.len() == 4,
        "stp:"@.len() == 4,
        "end:"@.len() == 4,
        "bck:"@.len() == 4,
        "emg:"@.len() == 4,
        "tim:"@.len() == 4,
        "ops:"@.len() == 4,
        "nps:"@.len() == 4,
        "abk:"@.len() == 4,
        "nbk:"@.len() == 4,
        tag_code("usr:"@) == 117115114058,
        tag_code("bpm:"@) == 98112109058,
        tag_code("cnt:"@) == 99110116058,
        tag_code("buf:"@) == 98117102058,
        tag_code("met:"@) == 109101116058,
        tag_code("off:"@) == 111102102058,
        tag_code("srt:"@) == 115114116058,
        tag_code("sts:"@) == 115116115058,
        tag_code("stp:"@) == 115116112058,
        tag_code("end:"@) == 101110100058,
        tag_code("bck:"@) == 98099107058,
        tag_code("emg:"@) == 101109103058,
        tag_code("tim:"@) == 116105109058,
        tag_code("ops:"@) == 111112115058,
        tag_code("nps:"@) == 110112115058,
        tag_code("abk:"@) == 97098107058,
        tag_code("nbk:"@) == 110098107058,
{
    reveal_strlit("usr:");
    reveal_strlit("bpm:");
    reveal_strlit("cnt:");
    reveal_strlit("buf:");
    reveal_strlit("met:");
    reveal_strlit("off:");
    reveal_strlit("srt:");
    reveal_strlit("sts:");
    reveal_strlit("stp:");
    reveal_strlit("end:");
    reveal_strlit("bck:");
    reveal_strlit("emg:");
    reveal_strlit("tim:");
    reveal_strlit("ops:");
    reveal_strlit("nps:");
    reveal_strlit("abk:");
    reveal_strlit("nbk:");
}

/// A tag that takes a number takes it as it reads, up to the limit of its type, and otherwise the
/// text asks for nothing.
pub proof fn lemma_what_numbers_mean(rest: Seq<char>)
    ensures
        match number(rest) {
            Some(n) => {
                &&& meaning("bpm:"@ + rest) == if n <= 4294967295 {
                    Meaning::Bpm(n)
                } else {
                    Meaning::Unknown
                }
                &&& meaning("cnt:"@ + rest) == if n <= 4294967295 {
                    Meaning::Counts(n)
                } else {
                    Meaning::Unknown
                }
                &&& meaning("buf:"@ + rest) == if n <= usize::MAX {
                    Meaning::Buffer(n)
                } else {
                    Meaning::Unknown
                }
                &&& meaning("off:"@ + rest) == if n <= usize::MAX {
                    Meaning::Offset(n)
                } else {
                    Meaning::Unknown
                }
                &&& meaning("tim:"@ + rest) == if n <= usize::MAX {
                    Meaning::Time(n)
                } else {
                    Meaning::Unknown
                }
            },
            None => {
                &&& meaning("bpm:"@ + rest) == Meaning::Unknown
                &&& meaning("cnt:"@ + rest) == Meaning::Unknown
                &&& meaning("buf:"@ + rest) == Meaning::Unknown
                &&& meaning("off:"@ + rest) == Meaning::Unknown
                &&& meaning("tim:"@ + rest) == Meaning::Unknown
            },
        },
{
    lemma_tags_differ();
    lemma_tag("bpm:"@, rest);
    lemma_tag("cnt:"@, rest);
    lemma_tag("buf:"@, rest);
    lemma_tag("off:"@, rest);
    lemma_tag("tim:"@, rest);
}

/// A metronome has a tempo, which is taken as it stands, and after a colon the beats of a bar. An
/// emergency has a name, and after a colon perhaps a number. What follows a second colon counts for
/// nothing.
pub proof fn lemma_what_parts_mean(a: Seq<char>, b: Seq<char>, rest: Seq<char>, n: nat)
    requires
        forall|i: int| 0 <= i < a.len() ==> a[i] != ':',
        forall|i: int| 0 <= i < b.len() ==> b[i] != ':',
        number(b) == Some(n),
        n <= usize::MAX,
    ensures
        meaning("met:"@ + (a.push(':') + b)) == Meaning::Metronome(a, n),
        meaning("met:"@ + (a.push(':') + b.push(':') + rest)) == Meaning::Metronome(a, n),
        meaning("met:"@ + a) == Meaning::Unknown,
        meaning("emg:"@ + (a.push(':') + b)) == Meaning::Emergency(a, n),
        meaning("emg:"@ + (a.push(':') + b.push(':') + rest)) == Meaning::Emergency(a, n),
        meaning("emg:"@ + a) == Meaning::Emergency(a, 0),
{
    lemma_tags_differ();
    lemma_parts(a, b);
    lemma_more_parts(a, b, rest);
    lemma_one_part(a);
    let two = a.push(':') + b;
    let three = a.push(':') + b.push(':') + rest;
    lemma_tag("met:"@, two);
    lemma_tag("met:"@, three);
    lemma_tag("met:"@, a);
    lemma_tag("emg:"@, two);
    lemma_tag("emg:"@, three);
    lemma_tag("emg:"@, a);
}

/// A text that is too short for a tag, or does not begin with one, asks for nothing.
pub proof fn lemma_what_means_nothing(text: Seq<char>)
    requires
        text.len() < 4 || text[3] != ':',
    ensures
        meaning(text) == Meaning::Unknown,
{
    lemma_tags_differ();
    if text.len() >= 4 {
        reveal_strlit("usr:");
        reveal_strlit("bpm:");
        reveal_strlit("cnt:");
        reveal_strlit("buf:");
        reveal_strlit("met:");
        reveal_strlit("off:");
        reveal_strlit("srt:");
        reveal_strlit("sts:");
        reveal_strlit("stp:");
        reveal_strlit("end:");
        reveal_strlit("bck:");
        reveal_strlit("emg:");
        reveal_strlit("tim:");
        reveal_strlit("ops:");
        reveal_strlit("nps:");
        reveal_strlit("abk:");
        reveal_strlit("nbk:");
        assert(text.take(4)[3] == text[3]);
    }
}

/// After characters of one byte each comes the end of a character.
proof fn lemma_ascii_boundary(text: Seq<char>, k: int)
    requires
        0 <= k <= text.len(),
        forall|i: int| 0 <= i < k ==> (#[trigger] text[i] as u32) < 128,
    ensures
        is_char_boundary(encode_utf8(text), k),
        encode_utf8(text).len() >= k,
    decreases k,
{
    vstd::utf8::encode_utf8_valid_utf8(text);
    if k > 0 {
        let rest = text.drop_first();
        assert forall|i: int| 0 <= i < k - 1 implies (#[trigger] rest[i] as u32) < 128 by {
            assert(rest[i] == text[i + 1]);
        }
        lemma_ascii_boundary(rest, k - 1);
        vstd::utf8::encode_utf8_first_scalar(text);
        assert((text[0] as u32) < 128);
        assert(vstd::utf8::encode_scalar(text[0] as u32).len() == 1);
        assert(vstd::utf8::pop_first_scalar(encode_utf8(text)) =~= encode_utf8(rest));
    }
}

/// Every text can be read that begins with four characters of one byte each, but for an emergency
/// whose number is none.
pub proof fn lemma_what_can_be_read(text: Seq<char>)
    requires
        text.len() >= 4,
        forall|i: int| 0 <= i < 4 ==> (#[trigger] text[i] as u32) < 128,
        text.take(4) != "emg:"@ || emergency_number(text.skip(4)) is Some,
    ensures
        readable(text),
{
    lemma_ascii_boundary(text, 4);
}

/// An emergency can be read without a number, and with one that is not beyond the limit of its type.
pub proof fn lemma_emergencies_can_be_read(a: Seq<char>, b: Seq<char>)
    requires
        forall|i: int| 0 <= i < a.len() ==> a[i] != ':',
        forall|i: int| 0 <= i < b.len() ==> b[i] != ':',
    ensures
        readable("emg:"@ + a),
        readable("emg:"@ + (a.push(':') + b)) <==> number(b) is Some && number(b)->0 <= usize::MAX,
{
    lemma_tags_differ();
    reveal_strlit("emg:");
    lemma_one_part(a);
    lemma_parts(a, b);
    lemma_tag("emg:"@, a);
    lemma_tag("emg:"@, a.push(':') + b);
    let one = "emg:"@ + a;
    let two = "emg:"@ + (a.push(':') + b);
    assert forall|i: int| 0 <= i < 4 implies (#[trigger] one[i] as u32) < 128 by {
        assert(one[i] == "emg:"@[i]);
    }
    assert forall|i: int| 0 <= i < 4 implies (#[trigger] two[i] as u32) < 128 by {
        assert(two[i] == "emg:"@[i]);
    }
    lemma_ascii_boundary(one, 4);
    lemma_ascii_boundary(two, 4);
}

/// Every short text of characters of one byte each can be read, and asks for nothing.
pub proof fn lemma_short_texts(text: Seq<char>)
    requires
        text.len() < 4,
        vstd::utf8::is_ascii_chars(text),
    ensures
        readable(text),
        meaning(text) == Meaning::Unknown,
{
    vstd::utf8::is_ascii_chars_encode_utf8(text);
}

} // verus!
