use vstd::prelude::*;
use crate::color::Color;
use crate::segment::Segment;
use crate::registry::{Registry, distinct_keys, find_key, lemma_find_key};
use crate::render::wf_all;
use crate::codec::{parse_registry, serialize_registry, sp_registry, ser_registry};

verus! {

/// Why a configuration write was rejected. Either way no state changes.
#[derive(Clone, Copy, PartialEq, Eq, Structural, Debug)]
pub enum WriteError {
    /// The request body is not a well-formed registry document (or repeats
    /// an identifier).
    Malformed,
    /// The document parsed, but a segment has a zero length or period.
    Invalid,
}

/// The built-in starter palette: four one-pixel segments so the strip never
/// launches with zero animation.
pub open spec fn spec_default_entries() -> Seq<(Seq<char>, Segment)> {
    seq![
        (
            "seg0"@,
            Segment {
                length: 1,
                mirrored: false,
                start_color: Color { red: 255, green: 150, blue: 0 },
                end_color: Color { red: 255, green: 10, blue: 120 },
                phase_offset: 0,
                period: 100,
                brightness: 40,
            },
        ),
        (
            "seg1"@,
            Segment {
                length: 1,
                mirrored: false,
                start_color: Color { red: 166, green: 0, blue: 255 },
                end_color: Color { red: 2, green: 192, blue: 192 },
                phase_offset: 1,
                period: 100,
                brightness: 40,
            },
        ),
        (
            "seg2"@,
            Segment {
                length: 1,
                mirrored: false,
                start_color: Color { red: 20, green: 200, blue: 141 },
                end_color: Color { red: 200, green: 176, blue: 20 },
                phase_offset: 2,
                period: 100,
                brightness: 40,
            },
        ),
        (
            "seg3"@,
            Segment {
                length: 1,
                mirrored: false,
                start_color: Color { red: 200, green: 20, blue: 30 },
                end_color: Color { red: 200, green: 200, blue: 10 },
                phase_offset: 3,
                period: 100,
                brightness: 40,
            },
        ),
    ]
}

/// The four default identifiers are pairwise distinct.
proof fn lemma_default_ids_distinct()
    ensures
        "seg0"@ != "seg1"@,
        "seg0"@ != "seg2"@,
        "seg0"@ != "seg3"@,
        "seg1"@ != "seg2"@,
        "seg1"@ != "seg3"@,
        "seg2"@ != "seg3"@,
{
    reveal_strlit("seg0");
    reveal_strlit("seg1");
    reveal_strlit("seg2");
    reveal_strlit("seg3");
    assert("seg0"@[3] == '0' && "seg1"@[3] == '1' && "seg2"@[3] == '2' && "seg3"@[3] == '3');
}

/// Every built-in default segment is well formed.
proof fn lemma_default_entries_wf()
    ensures
        wf_all(spec_default_entries()),
{
    assert forall|i: int| 0 <= i < spec_default_entries().len() implies (
    #[trigger] spec_default_entries()[i]).1.wf() by {}
}

/// The built-in default registry (see `spec_default_entries`).
pub fn default_registry() -> (r: Registry)
    ensures
        r@ == spec_default_entries(),
        r.inv(),
{
    let mut reg = Registry::new();
    let s0 = Segment::new(1, false, Color::new(255, 150, 0), Color::new(255, 10, 120), 0, 100, 40);
    let s1 = Segment::new(1, false, Color::new(166, 0, 255), Color::new(2, 192, 192), 1, 100, 40);
    let s2 = Segment::new(1, false, Color::new(20, 200, 141), Color::new(200, 176, 20), 2, 100, 40);
    let s3 = Segment::new(1, false, Color::new(200, 20, 30), Color::new(200, 200, 10), 3, 100, 40);
    proof {
        lemma_default_ids_distinct();
    }
    let id0 = String::from_str("seg0");
    proof {
        lemma_find_key(reg@, id0@);
    }
    reg.insert(id0, s0);
    let id1 = String::from_str("seg1");
    proof {
        lemma_find_key(reg@, id1@);
        if find_key(reg@, id1@) >= 0 {
            assert(reg@[find_key(reg@, id1@)].0 == "seg1"@);
            assert(false);
        }
    }
    reg.insert(id1, s1);
    let id2 = String::from_str("seg2");
    proof {
        lemma_find_key(reg@, id2@);
        if find_key(reg@, id2@) >= 0 {
            assert(reg@[find_key(reg@, id2@)].0 == "seg2"@);
            assert(false);
        }
    }
    reg.insert(id2, s2);
    let id3 = String::from_str("seg3");
    proof {
        lemma_find_key(reg@, id3@);
        if find_key(reg@, id3@) >= 0 {
            assert(reg@[find_key(reg@, id3@)].0 == "seg3"@);
            assert(false);
        }
    }
    reg.insert(id3, s3);
    proof {
        assert(reg@ =~= spec_default_entries());
    }
    reg
}

/// Whether every segment of the registry satisfies the segment invariant
/// (positive length and period).
fn segments_wf(reg: &Registry) -> (r: bool)
    ensures
        r == wf_all(reg@),
{
    let n = reg.len();
    let mut i: usize = 0;
    while i < n
        invariant
            n == reg@.len(),
            i <= n,
            forall|k: int| 0 <= k < i ==> (#[trigger] reg@[k]).1.wf(),
        decreases n - i,
    {
        let e = reg.entry_at(i);
        if e.1.length == 0 || e.1.period == 0 {
            proof {
                assert(!(reg@[i as int].1.wf()));
            }
            return false;
        }
        i = i + 1;
    }
    true
}

/// Builds the registry the process starts with. `stored` is the persisted
/// blob, if any, decoded to text. A missing blob, a malformed one, one
/// holding no segments, and one holding a segment with a zero length or
/// period all fall back to the built-in default set, so the strip never
/// launches unrenderable; the returned flag says whether the stored
/// configuration was used, so the caller can report a fallback rather than
/// swallow it.
pub fn startup_registry(stored: Option<&str>) -> (r: (Registry, bool))
    ensures
        r.0.inv(),
        wf_all(r.0@),
        (match stored {
            Some(s) => (match sp_registry(s@) {
                Some(es) => if distinct_keys(es) && es.len() > 0 && wf_all(es) {
                    r.0@ == es && r.1
                } else {
                    r.0@ == spec_default_entries() && !r.1
                },
                None => r.0@ == spec_default_entries() && !r.1,
            }),
            None => r.0@ == spec_default_entries() && !r.1,
        }),
{
    proof {
        lemma_default_entries_wf();
    }
    match stored {
        Some(s) => {
            match parse_registry(s) {
                Some(reg) => {
                    if reg.len() > 0 && segments_wf(&reg) {
                        (reg, true)
                    } else {
                        (default_registry(), false)
                    }
                },
                None => (default_registry(), false),
            }
        },
        None => (default_registry(), false),
    }
}

/// Decides a configuration write. On success hands back the new registry
/// and the exact blob to persist; the caller persists the blob first and
/// then swaps the registry. A malformed or invalid body changes nothing and
/// names the reason. Persistence failure is deliberately not this
/// function's concern: the caller applies the in-memory swap even if the
/// save failed, trading durability for liveness of the visible effect.
pub fn prepare_write(body: &str) -> (r: Result<(Registry, String), WriteError>)
    ensures
        (match r {
            Ok(p) => sp_registry(body@) is Some && distinct_keys(sp_registry(body@)->0)
                && wf_all(sp_registry(body@)->0) && p.0@ == sp_registry(body@)->0 && p.0.inv()
                && p.1@ == ser_registry(sp_registry(body@)->0),
            Err(WriteError::Malformed) => sp_registry(body@) is None || !distinct_keys(
                sp_registry(body@)->0,
            ),
            Err(WriteError::Invalid) => sp_registry(body@) is Some && distinct_keys(
                sp_registry(body@)->0,
            ) && !wf_all(sp_registry(body@)->0),
        }),
{
    let reg = match parse_registry(body) {
        Some(reg) => reg,
        None => {
            return Err(WriteError::Malformed);
        },
    };
    if !segments_wf(&reg) {
        return Err(WriteError::Invalid);
    }
    let blob = serialize_registry(&reg);
    Ok((reg, blob))
}

} // verus!
