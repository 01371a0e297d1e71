//! Comparing paths by their components, as Unix paths compare: repeated
//! slashes, a trailing slash and `.` components after the first make no
//! difference.
use vstd::prelude::*;
use vstd::string::StringSliceAdditionalSpecFns;
use vstd::utf8::encode_utf8;

verus! {

pub const SLASH: u8 = 47;

pub const DOT: u8 = 46;

/// The pieces of `b` between slashes, in order, empty ones included.
pub open spec fn segments(b: Seq<u8>) -> Seq<Seq<u8>>
    decreases b.len(),
{
    if b.len() == 0 {
        seq![Seq::<u8>::empty()]
    } else {
        let prev = segments(b.drop_last());
        if b.last() == SLASH {
            prev.push(Seq::<u8>::empty())
        } else {
            prev.update(prev.len() - 1, prev.last().push(b.last()))
        }
    }
}

/// Segment `k` is a component: it is not empty, and it is not `.` unless it
/// comes first (a leading `.` of a relative path stays).
pub open spec fn is_component(segs: Seq<Seq<u8>>, k: int) -> bool {
    segs[k].len() > 0 && (segs[k] != seq![DOT] || k == 0)
}

/// The components among the segments, in order.
pub open spec fn components(segs: Seq<Seq<u8>>) -> Seq<Seq<u8>>
    decreases segs.len(),
{
    if segs.len() == 0 {
        seq![]
    } else {
        let prev = components(segs.drop_last());
        if is_component(segs, segs.len() - 1) {
            prev.push(segs.last())
        } else {
            prev
        }
    }
}

/// The components joined by single slashes.
pub open spec fn joined(cs: Seq<Seq<u8>>) -> Seq<u8>
    decreases cs.len(),
{
    if cs.len() == 0 {
        seq![]
    } else if cs.len() == 1 {
        cs[0]
    } else {
        joined(cs.drop_last()) + seq![SLASH] + cs.last()
    }
}

/// What a path is compared by: whether it starts at the root, then its
/// components joined by single slashes.
pub open spec fn path_key(b: Seq<u8>) -> Seq<u8> {
    (if b.len() > 0 && b[0] == SLASH {
        seq![SLASH]
    } else {
        seq![]
    }) + joined(components(segments(b)))
}

/// Two paths name the same file: they have the same components.
pub open spec fn same_path(a: Seq<char>, b: Seq<char>) -> bool {
    path_key(encode_utf8(a)) == path_key(encode_utf8(b))
}

/// `dst` with the bytes of `src` added at the end.
fn extend(dst: &mut Vec<u8>, src: &Vec<u8>)
    ensures
        final(dst)@ == old(dst)@ + src@,
{
    let ghost start = dst@;
    let mut i: usize = 0;
    while i < src.len()
        invariant
            i <= src@.len(),
            dst@ == start + src@.subrange(0, i as int),
        decreases src@.len() - i,
    {
        dst.push(src[i]);
        i = i + 1;
        proof {
            assert(dst@ =~= start + src@.subrange(0, i as int));
        }
    }
    proof {
        assert(src@.subrange(0, i as int) =~= src@);
    }
}

/// Adds segment `seg`, the one after the segments `done`, to the joined
/// components `key` of `done`, of which there are `kept`.
fn add_segment(
    key: &mut Vec<u8>,
    kept: usize,
    seg: &Vec<u8>,
    index: usize,
    Ghost(done): Ghost<Seq<Seq<u8>>>,
) -> (r: usize)
    requires
        old(key)@ == joined(components(done)),
        kept == components(done).len(),
        index == done.len(),
        kept + seg@.len() <= usize::MAX,
    ensures
        final(key)@ == joined(components(done.push(seg@))),
        r == components(done.push(seg@)).len(),
        r <= kept + seg@.len(),
{
    let all = Ghost(done.push(seg@));
    proof {
        assert(all@.drop_last() =~= done);
        assert(all@.last() == seg@);
        assert(all@[index as int] == seg@);
    }
    let is_dot = seg.len() == 1 && seg[0] == DOT;
    proof {
        if seg@ == seq![DOT] {
            assert(is_dot);
        }
        if is_dot {
            assert(seg@ =~= seq![DOT]);
        }
    }
    if seg.len() > 0 && (!is_dot || index == 0) {
        let ghost cs = components(done).push(seg@);
        assert(components(all@) == cs);
        if kept == 0 {
            extend(key, seg);
            proof {
                assert(cs.len() == 1);
                assert(key@ =~= joined(cs));
            }
        } else {
            key.push(SLASH);
            extend(key, seg);
            proof {
                assert(cs.drop_last() =~= components(done));
                assert(key@ =~= joined(cs));
            }
        }
        assert(kept + 1 == cs.len());
        kept + 1
    } else {
        kept
    }
}

/// The component key of a path; see `path_key`.
pub fn path_key_of(s: &str) -> (r: Vec<u8>)
    ensures
        r@ == path_key(s.spec_bytes()),
{
    let b = s.as_bytes();
    let mut key: Vec<u8> = Vec::new();
    let mut kept: usize = 0;
    let mut cur: Vec<u8> = Vec::new();
    let mut count: usize = 0;
    let ghost mut done: Seq<Seq<u8>> = seq![];
    let mut i: usize = 0;
    proof {
        assert(b@.subrange(0, 0) =~= Seq::<u8>::empty());
        assert(cur@ =~= Seq::<u8>::empty());
        assert(done.push(cur@) =~= seq![Seq::<u8>::empty()]);
    }
    while i < b.len()
        invariant
            b@ == s.spec_bytes(),
            i <= b@.len(),
            segments(b@.subrange(0, i as int)) == done.push(cur@),
            key@ == joined(components(done)),
            kept == components(done).len(),
            count == done.len(),
            kept + count + cur@.len() <= i,
        decreases b@.len() - i,
    {
        let c = b[i];
        proof {
            let pre = b@.subrange(0, i + 1);
            assert(pre.drop_last() =~= b@.subrange(0, i as int));
            assert(pre.last() == c);
        }
        if c == SLASH {
            kept = add_segment(&mut key, kept, &cur, count, Ghost(done));
            proof {
                done = done.push(cur@);
            }
            cur = Vec::new();
            count = count + 1;
            proof {
                assert(segments(b@.subrange(0, i + 1)) =~= done.push(cur@));
            }
        } else {
            let ghost before = cur@;
            cur.push(c);
            proof {
                assert(segments(b@.subrange(0, i + 1)) =~= done.push(before).update(
                    done.len() as int,
                    before.push(c),
                ));
                assert(done.push(before).update(done.len() as int, before.push(c)) =~= done.push(
                    cur@,
                ));
            }
        }
        i = i + 1;
    }
    proof {
        assert(b@.subrange(0, i as int) =~= b@);
    }
    add_segment(&mut key, kept, &cur, count, Ghost(done));
    if b.len() > 0 && b[0] == SLASH {
        let mut rooted: Vec<u8> = Vec::new();
        rooted.push(SLASH);
        extend(&mut rooted, &key);
        proof {
            assert(rooted@ =~= seq![SLASH] + key@);
        }
        rooted
    } else {
        proof {
            assert(key@ =~= Seq::<u8>::empty() + key@);
        }
        key
    }
}

/// Whether two byte strings are equal.
pub fn bytes_equal(a: &Vec<u8>, b: &Vec<u8>) -> (r: bool)
    ensures
        r == (a@ == b@),
{
    if a.len() != b.len() {
        return false;
    }
    let mut i: usize = 0;
    while i < a.len()
        invariant
            a@.len() == b@.len(),
            i <= a@.len(),
            forall|j: int| 0 <= j < i ==> a@[j] == b@[j],
        decreases a@.len() - i,
    {
        if a[i] != b[i] {
            assert(a@[i as int] != b@[i as int]);
            return false;
        }
        i = i + 1;
    }
    proof {
        assert(a@ =~= b@);
    }
    true
}

/// Whether two paths name the same file; see `same_path`.
pub fn same_path_of(a: &str, b: &str) -> (r: bool)
    ensures
        r == same_path(a@, b@),
{
    let x = path_key_of(a);
    let y = path_key_of(b);
    bytes_equal(&x, &y)
}

} // verus!
