//! The outline of one second of audio, as it is drawn while users are brought into step.

use vstd::prelude::*;

verus! {

/// Samples in a second.
pub const SECOND: usize = 48000;

/// Sections into which a second is cut.
pub const SECTIONS: usize = 4800;

/// Samples in a section.
pub const SECTION: usize = 10;

/// The greatest of some samples.
pub open spec fn greatest(s: Seq<i16>) -> i16
    recommends
        s.len() > 0,
    decreases s.len(),
{
    if s.len() <= 1 || greatest(s.drop_last()) < s.last() {
        s.last()
    } else {
        greatest(s.drop_last())
    }
}

/// The least of some samples.
pub open spec fn least(s: Seq<i16>) -> i16
    recommends
        s.len() > 0,
    decreases s.len(),
{
    if s.len() <= 1 || least(s.drop_last()) > s.last() {
        s.last()
    } else {
        least(s.drop_last())
    }
}

/// The upper byte of a sample.
pub open spec fn upper_byte(x: i16) -> u8 {
    (x as int % 65536 / 256) as u8
}

/// The section with number `k`.
pub open spec fn section(samples: Seq<i16>, k: int) -> Seq<i16> {
    samples.subrange(SECTION * k, SECTION * k + SECTION)
}

/// The outline of a second: first the upper byte of the greatest sample of each section, then that
/// of the least.
pub open spec fn outline(samples: Seq<i16>) -> Seq<u8> {
    Seq::new(
        2 * SECTIONS as nat,
        |k: int|
            if k < SECTIONS {
                upper_byte(greatest(section(samples, k)))
            } else {
                upper_byte(least(section(samples, k - SECTIONS)))
            },
    )
}

fn upper_byte_of(x: i16) -> (b: u8)
    ensures
        b == upper_byte(x),
{
    let w: i32 = if x < 0 {
        x as i32 + 65536
    } else {
        x as i32
    };
    (w / 256) as u8
}

/// The least and the greatest of the samples from `start` to `start + SECTION`.
fn extremes(samples: &Vec<i16>, start: usize) -> (r: (i16, i16))
    requires
        start + SECTION <= samples@.len(),
    ensures
        r.0 == least(samples@.subrange(start as int, start + SECTION)),
        r.1 == greatest(samples@.subrange(start as int, start + SECTION)),
{
    let mut min: i16 = samples[start];
    let mut max: i16 = samples[start];
    let mut i: usize = 1;
    proof {
        assert(samples@.subrange(start as int, start + 1).last() == samples@[start as int]);
    }
    while i < SECTION
        invariant
            start + SECTION <= samples.len(),
            1 <= i <= SECTION,
            min == least(samples@.subrange(start as int, start + i)),
            max == greatest(samples@.subrange(start as int, start + i)),
        decreases SECTION - i,
    {
        let x = samples[start + i];
        proof {
            let now = samples@.subrange(start as int, start + i + 1);
            assert(now.drop_last() =~= samples@.subrange(start as int, start + i));
            assert(now.last() == x);
        }
        if x < min {
            min = x;
        }
        if x > max {
            max = x;
        }
        i = i + 1;
    }
    (min, max)
}

/// The outline of a second.
pub fn outline_of(samples: &Vec<i16>) -> (r: Vec<u8>)
    requires
        samples@.len() == SECOND,
    ensures
        r@ == outline(samples@),
{
    let mut tops: Vec<u8> = Vec::new();
    let mut bottoms: Vec<u8> = Vec::new();
    let mut k: usize = 0;
    while k < SECTIONS
        invariant
            samples@.len() == SECOND,
            k <= SECTIONS,
            tops@.len() == k,
            bottoms@.len() == k,
            forall|j: int| 0 <= j < k ==> tops@[j] == upper_byte(greatest(section(samples@, j))),
            forall|j: int| 0 <= j < k ==> bottoms@[j] == upper_byte(least(section(samples@, j))),
        decreases SECTIONS - k,
    {
        let (min, max) = extremes(samples, k * SECTION);
        assert(k * SECTION == SECTION * k);
        tops.push(upper_byte_of(max));
        bottoms.push(upper_byte_of(min));
        k = k + 1;
    }
    tops.append(&mut bottoms);
    assert(tops@ =~= outline(samples@));
    tops
}

/// The greatest and the least of some samples are among them, and enclose all of them.
pub proof fn lemma_extremes(s: Seq<i16>)
    requires
        s.len() > 0,
    ensures
        s.contains(greatest(s)),
        s.contains(least(s)),
        forall|i: int| 0 <= i < s.len() ==> least(s) <= #[trigger] s[i] <= greatest(s),
    decreases s.len(),
{
    if s.len() == 1 {
        assert(s[0] == s.last());
    } else {
        let fore = s.drop_last();
        lemma_extremes(fore);
        let g = fore.index_of(greatest(fore));
        let l = fore.index_of(least(fore));
        assert(s[g] == fore[g]);
        assert(s[l] == fore[l]);
        assert(s[s.len() - 1] == s.last());
        assert forall|i: int| 0 <= i < s.len() implies least(s) <= #[trigger] s[i] <= greatest(
            s,
        ) by {
            if i < fore.len() {
                assert(fore[i] == s[i]);
            }
        }
    }
}

/// The outline of a second encloses it. Of every ten samples in turn, none is above the upper bound
/// that the outline gives, and one is in its step of 256; and so for the lower bound.
pub proof fn lemma_outline_encloses(samples: Seq<i16>, k: int)
    requires
        samples.len() == 48000,
        0 <= k < 4800,
    ensures
        outline(samples).len() == 9600,
        ({
            let byte = outline(samples)[k];
            let top = if byte < 128 {
                byte as int
            } else {
                byte - 256
            };
            &&& forall|j: int| 10 * k <= j < 10 * k + 10 ==> #[trigger] samples[j] < 256 * (top + 1)
            &&& exists|j: int| 10 * k <= j < 10 * k + 10 && #[trigger] samples[j] >= 256 * top
        }),
        ({
            let byte = outline(samples)[4800 + k];
            let bottom = if byte < 128 {
                byte as int
            } else {
                byte - 256
            };
            &&& forall|j: int| 10 * k <= j < 10 * k + 10 ==> #[trigger] samples[j] >= 256 * bottom
            &&& exists|j: int|
                10 * k <= j < 10 * k + 10 && #[trigger] samples[j] < 256 * (bottom + 1)
        }),
{
    let part = samples.subrange(10 * k, 10 * k + 10);
    assert(section(samples, k) =~= part);
    lemma_extremes(part);
    let g = part.index_of(greatest(part));
    let l = part.index_of(least(part));
    assert(samples[10 * k + g] == greatest(part));
    assert(samples[10 * k + l] == least(part));
    assert forall|j: int| 10 * k <= j < 10 * k + 10 implies least(part) <= #[trigger] samples[j]
        <= greatest(part) by {
        assert(part[j - 10 * k] == samples[j]);
    }
}

} // verus!
