//! From raw remote tag listings to versions: only entries under the tag
//! namespace count; an optional leading `v` is dropped; peeled-tag entries
//! (a trailing `^{}`) and anything that is not a version are discarded
//! silently.

use vstd::prelude::*;
use vstd::string::StrSliceExecFns;

use crate::version::{parses, version_of, views_of, Version};

verus! {

/// The namespace prefix of a tag reference.
pub open spec fn tags_prefix() -> Seq<char> {
    seq!['r', 'e', 'f', 's', '/', 't', 'a', 'g', 's', '/']
}

/// The marker a listing appends to a peeled (dereferenced annotated) tag.
pub open spec fn peel_marker() -> Seq<char> {
    seq!['^', '{', '}']
}

pub open spec fn has_prefix(t: Seq<char>, p: Seq<char>) -> bool {
    t.len() >= p.len() && t.take(p.len() as int) == p
}

pub open spec fn has_suffix(t: Seq<char>, p: Seq<char>) -> bool {
    t.len() >= p.len() && t.skip(t.len() - p.len()) == p
}

/// A tag name with the namespace prefix and an optional leading `v` removed.
pub open spec fn stripped(t: Seq<char>) -> Seq<char>
    recommends
        has_prefix(t, tags_prefix()),
{
    let u = t.skip(tags_prefix().len() as int);
    if u.len() > 0 && u[0] == 'v' {
        u.drop_first()
    } else {
        u
    }
}

/// The version a raw tag listing entry denotes, if any.
pub open spec fn tag_version(t: Seq<char>) -> Option<Seq<u64>> {
    if !has_prefix(t, tags_prefix()) {
        None
    } else {
        let w = stripped(t);
        if has_suffix(w, peel_marker()) {
            None
        } else if parses(w) {
            Some(version_of(w))
        } else {
            None
        }
    }
}

pub open spec fn str_views(ts: Seq<String>) -> Seq<Seq<char>> {
    ts.map_values(|s: String| s@)
}

/// The versions a whole listing denotes, in listing order.
pub open spec fn remote_versions(ts: Seq<Seq<char>>) -> Seq<Seq<u64>> {
    ts.filter_map(|t: Seq<char>| tag_version(t))
}

/// The character the tag namespace prefix holds at an index.
fn prefix_char(k: usize) -> (c: char)
    requires
        k < 10,
    ensures
        c == tags_prefix()[k as int],
{
    if k == 0 {
        'r'
    } else if k == 1 {
        'e'
    } else if k == 2 {
        'f'
    } else if k == 3 {
        's'
    } else if k == 4 {
        '/'
    } else if k == 5 {
        't'
    } else if k == 6 {
        'a'
    } else if k == 7 {
        'g'
    } else if k == 8 {
        's'
    } else {
        '/'
    }
}

/// The version one raw tag entry denotes, if it lies under the tag
/// namespace, is not a peeled-tag entry, and parses once stripped.
pub fn version_from_tag(tag: &str) -> (r: Option<Version>)
    ensures
        r is Some <==> tag_version(tag@) is Some,
        r is Some ==> Some(r->0@) == tag_version(tag@) && r->0.wf(),
{
    let n = tag.unicode_len();
    if n < 10 {
        return None;
    }
    let mut k: usize = 0;
    while k < 10
        invariant
            k <= 10,
            n == tag@.len(),
            n >= 10,
            forall|j: int| 0 <= j < k ==> tag@[j] == tags_prefix()[j],
        decreases 10 - k,
    {
        if tag.get_char(k) != prefix_char(k) {
            proof {
                assert(tag@.take(10) != tags_prefix());
            }
            return None;
        }
        k = k + 1;
    }
    proof {
        assert(tag@.take(10) =~= tags_prefix());
    }
    let mut start: usize = 10;
    if start < n && tag.get_char(start) == 'v' {
        start = 11;
    }
    let ghost w = stripped(tag@);
    proof {
        if n > 10 {
            assert(tag@.skip(10)[0] == tag@[10]);
        }
        assert(w =~= tag@.skip(start as int));
    }
    if n - start >= 3 {
        let c1 = tag.get_char(n - 3);
        let c2 = tag.get_char(n - 2);
        let c3 = tag.get_char(n - 1);
        proof {
            assert(w.len() == n - start);
            assert(w[w.len() - 3] == tag@[n - 3]);
            assert(w[w.len() - 2] == tag@[n - 2]);
            assert(w[w.len() - 1] == tag@[n - 1]);
            assert(w.skip(w.len() - 3) =~= seq![tag@[n as int - 3], tag@[n as int - 2], tag@[n as int - 1]]);
        }
        if c1 == '^' && c2 == '{' && c3 == '}' {
            proof {
                assert(w.skip(w.len() - 3) =~= peel_marker());
            }
            return None;
        }
        proof {
            assert(w.skip(w.len() - 3) != peel_marker());
        }
    }
    let rest = tag.substring_char(start, n);
    proof {
        assert(rest@ =~= w);
    }
    match Version::parse(rest) {
        Ok(v) => Some(v),
        Err(_) => None,
    }
}

/// Every version a listing denotes, in listing order; entries that denote
/// none are discarded without error.
pub fn versions_from_tags(tags: &Vec<String>) -> (r: Vec<Version>)
    ensures
        views_of(r@) == remote_versions(str_views(tags@)),
        forall|k: int| 0 <= k < r@.len() ==> (#[trigger] r@[k]).wf(),
{
    let ghost ts = str_views(tags@);
    let mut out: Vec<Version> = Vec::new();
    let mut i: usize = 0;
    proof {
        assert(ts.take(0) =~= Seq::<Seq<char>>::empty());
        assert(views_of(out@) =~= ts.take(0).filter_map(|t: Seq<char>| tag_version(t)));
    }
    while i < tags.len()
        invariant
            i <= tags@.len(),
            ts == str_views(tags@),
            views_of(out@) == ts.take(i as int).filter_map(|t: Seq<char>| tag_version(t)),
            forall|k: int| 0 <= k < out@.len() ==> (#[trigger] out@[k]).wf(),
        decreases tags@.len() - i,
    {
        let ghost prev = views_of(out@);
        proof {
            ts.lemma_filter_map_take_succ(|t: Seq<char>| tag_version(t), i as int);
            assert(ts[i as int] == tags@[i as int]@);
        }
        match version_from_tag(tags[i].as_str()) {
            Some(v) => {
                out.push(v);
                proof {
                    assert(views_of(out@) =~= prev.push(v@));
                    assert(views_of(out@) =~= ts.take(i as int + 1).filter_map(
                        |t: Seq<char>| tag_version(t),
                    ));
                }
            },
            None => {
                proof {
                    assert(views_of(out@) =~= ts.take(i as int + 1).filter_map(
                        |t: Seq<char>| tag_version(t),
                    ));
                }
            },
        }
        i = i + 1;
    }
    proof {
        assert(ts.take(ts.len() as int) =~= ts);
    }
    out
}

} // verus!
