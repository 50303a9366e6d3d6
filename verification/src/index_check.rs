//! Keeping component indexes honest: what `pcb index verify` reports for
//! an entry, which recorded hashes `pcb index update` refreshes, and which
//! indexes `pcb index remove` drops.

use vstd::prelude::*;
use crate::store::{blake3_hex, blake3_of, hex_of};
use crate::sexpr::eq_ignore_ascii_case;
use crate::text::{lower_seq, push_str};
use crate::edit::net_view;
use crate::canon::texts;
use crate::error::{Error, list_names, names_text};
use crate::schema::FileRef;
use crate::wiring::retain_flagged;

verus! {

/// Whether a recorded hash differs from the hash of `bytes`, ignoring the
/// case of hexadecimal letters.
pub open spec fn hash_differs(recorded: Seq<char>, bytes: Seq<u8>) -> bool {
    lower_seq(hex_of(blake3_of(bytes))) != lower_seq(recorded)
}

/// What `pcb index verify` reports for one entry whose component file is
/// `path` (`bytes`: its contents, `None` where it is missing) with hash
/// `recorded`, and whose component names the footprint `fp` (its path, its
/// contents or `None` where missing, and its recorded hash).
pub open spec fn entry_problems_of(path: Seq<char>, bytes: Option<Seq<u8>>, recorded: Option<Seq<char>>,
    fp: Option<(Seq<char>, Option<Seq<u8>>, Option<Seq<char>>)>) -> Seq<Seq<char>> {
    match bytes {
        None => seq!["missing file "@ + path],
        Some(b) => {
            let own: Seq<Seq<char>> = match recorded {
                None => seq!["no hash recorded"@],
                Some(h) => if hash_differs(h, b) {
                    seq!["hash mismatch (expected "@ + h + ", actual "@ + hex_of(blake3_of(b)) + ")"@]
                } else {
                    Seq::empty()
                },
            };
            let foot: Seq<Seq<char>> = match fp {
                None => Seq::empty(),
                Some((fpath, fbytes, fh)) => match fbytes {
                    None => seq!["missing footprint "@ + fpath],
                    Some(fb) => match fh {
                        Some(h) => if hash_differs(h, fb) { seq!["footprint hash mismatch for "@ + fpath] } else { Seq::empty() },
                        None => seq!["footprint has no hash recorded"@],
                    },
                },
            };
            own + foot
        },
    }
}

pub open spec fn bytes_view(b: Option<Vec<u8>>) -> Option<Seq<u8>> {
    match b { Some(v) => Some(v@), None => None }
}

pub open spec fn footprint_view(fp: Option<(String, Option<Vec<u8>>, Option<String>)>) -> Option<(Seq<char>, Option<Seq<u8>>, Option<Seq<char>>)> {
    match fp { Some((p, b, h)) => Some((p@, bytes_view(b), net_view(h))), None => None }
}

fn one(s: String) -> (r: Vec<String>)
    ensures texts(r@) == seq![s@],
{
    let mut v: Vec<String> = Vec::new();
    v.push(s);
    proof { assert(texts(v@) =~= seq![v@[0]@]); }
    v
}

/// What `pcb index verify` reports for one entry, as `entry_problems_of`
/// gives it.
pub fn entry_problems(path: &str, bytes: &Option<Vec<u8>>, recorded: &Option<String>,
    fp: &Option<(String, Option<Vec<u8>>, Option<String>)>) -> (r: Vec<String>)
    ensures texts(r@) == entry_problems_of(path@, bytes_view(*bytes), net_view(*recorded), footprint_view(*fp)),
{
    let b = match bytes {
        None => {
            let mut m = String::new();
            push_str(&mut m, "missing file ");
            push_str(&mut m, path);
            return one(m);
        },
        Some(b) => b,
    };
    let mut out: Vec<String> = Vec::new();
    match recorded {
        None => { out = one("no hash recorded".to_owned()); },
        Some(h) => {
            let actual = blake3_hex(b.as_slice());
            if !eq_ignore_ascii_case(actual.as_str(), h.as_str()) {
                let mut m = String::new();
                push_str(&mut m, "hash mismatch (expected ");
                push_str(&mut m, h.as_str());
                push_str(&mut m, ", actual ");
                push_str(&mut m, actual.as_str());
                push_str(&mut m, ")");
                out = one(m);
            }
        },
    }
    let ghost own = texts(out@);
    let extra: Option<String> = match fp {
        None => None,
        Some((fpath, fbytes, fh)) => match fbytes {
            None => {
                let mut m = String::new();
                push_str(&mut m, "missing footprint ");
                push_str(&mut m, fpath.as_str());
                Some(m)
            },
            Some(fb) => match fh {
                Some(h) => {
                    let actual = blake3_hex(fb.as_slice());
                    if !eq_ignore_ascii_case(actual.as_str(), h.as_str()) {
                        let mut m = String::new();
                        push_str(&mut m, "footprint hash mismatch for ");
                        push_str(&mut m, fpath.as_str());
                        Some(m)
                    } else {
                        None
                    }
                },
                None => Some("footprint has no hash recorded".to_owned()),
            },
        },
    };
    match extra {
        Some(m) => {
            out.push(m);
            proof { assert(texts(out@) =~= own.push(out@.last()@)); }
        },
        None => {},
    }
    proof { assert(texts(out@) =~= entry_problems_of(path@, bytes_view(*bytes), net_view(*recorded), footprint_view(*fp))); }
    out
}

/// The hash `pcb index update` records for a file with contents `bytes`,
/// and whether that changes what was recorded (compared exactly).
pub fn refreshed_hash(recorded: &Option<String>, bytes: &[u8]) -> (r: (String, bool))
    ensures r.0@ == hex_of(blake3_of(bytes@)), r.1 == (net_view(*recorded) != Some(r.0@)),
{
    let h = blake3_hex(bytes);
    let changed = match recorded {
        Some(old) => !crate::text::same_str(old.as_str(), h.as_str()),
        None => true,
    };
    (h, changed)
}

/// Whether `pcb index remove <name>` keeps an index with this URL and name.
pub open spec fn index_kept(name: Seq<char>, url: Seq<char>, ix_name: Option<Seq<char>>) -> bool {
    !(url == name || ix_name == Some(name))
}

/// The names that could be read, in order.
pub open spec fn known_names(names: Seq<Option<Seq<char>>>) -> Seq<Seq<char>>
    decreases names.len(),
{
    if names.len() == 0 {
        Seq::empty()
    } else {
        let r = known_names(names.drop_last());
        match names.last() { Some(n) => r.push(n), None => r }
    }
}

pub open spec fn opt_texts(v: Seq<Option<String>>) -> Seq<Option<Seq<char>>> {
    v.map_values(|o: Option<String>| net_view(o))
}

/// `pcb index remove`: drops the indexes whose URL is `name` or whose
/// index is named `name` (`names[i]`: the name read from index `i`, where
/// it could be read), keeping the rest in order; refuses when none goes,
/// listing the names there are, and changes nothing.
pub fn remove_index(refs: &mut Vec<FileRef>, names: &Vec<Option<String>>, name: &str) -> (r: Result<(), Error>)
    requires names@.len() == old(refs)@.len(),
    ensures
        ({
            let keep = Seq::new(old(refs)@.len(), |i: int| index_kept(name@, old(refs)@[i].url@, opt_texts(names@)[i]));
            if forall|i: int| 0 <= i < keep.len() ==> keep[i] {
                &&& r matches Err(e) && e.message@ == "no index named `"@ + name@ + "`; indexes are "@
                    + names_text(known_names(opt_texts(names@))) && e.help is None
                &&& final(refs)@ == old(refs)@
            } else {
                &&& r is Ok
                &&& final(refs)@.len() <= old(refs)@.len()
                &&& exists|sel: Seq<int>| kept_at(sel, keep) && final(refs)@ == sel.map_values(|i: int| old(refs)@[i])
            }
        }),
{
    let ghost r0 = refs@;
    let ghost keep = Seq::new(refs@.len(), |i: int| index_kept(name@, refs@[i].url@, opt_texts(names@)[i]));
    let mut flags: Vec<bool> = Vec::new();
    let mut any_drop = false;
    let mut i: usize = 0;
    while i < refs.len()
        invariant i <= refs@.len(), refs@ == r0, names@.len() == r0.len(), flags@.len() == i,
            keep == Seq::new(r0.len(), |i: int| index_kept(name@, r0[i].url@, opt_texts(names@)[i])),
            forall|j: int| 0 <= j < i ==> #[trigger] flags@[j] == keep[j],
            any_drop == exists|j: int| 0 <= j < i && !keep[j],
        decreases refs@.len() - i,
    {
        let by_url = crate::text::same_str(refs[i].url.as_str(), name);
        let by_name = match &names[i] { Some(n) => crate::text::same_str(n.as_str(), name), None => false };
        let k = !(by_url || by_name);
        proof { assert(opt_texts(names@)[i as int] == net_view(names@[i as int])); assert(k == keep[i as int]); }
        if !k { any_drop = true; }
        flags.push(k);
        i += 1;
    }
    proof { assert(flags@ =~= keep); }
    if !any_drop {
        proof {
            assert forall|j: int| 0 <= j < keep.len() implies keep[j] by {
                if !keep[j] { assert(exists|j2: int| 0 <= j2 < i && !keep[j2]); }
            }
        }
        let known = known_list(names);
        let mut m = String::new();
        push_str(&mut m, "no index named `");
        push_str(&mut m, name);
        push_str(&mut m, "`; indexes are ");
        push_str(&mut m, list_names(&known).as_str());
        proof { assert(known@.map_values(|s: String| s@) =~= texts(known@)); }
        return Err(Error::msg(m));
    }
    let ghost sel = kept_indices(keep, keep.len() as int);
    proof {
        lemma_kept_indices(keep, keep.len() as int);
        assert(r0.filter(|f: FileRef| true).len() >= 0);
    }
    retain_by_flags(refs, &flags, Ghost(keep), Ghost(sel));
    proof {
        let j0 = choose|j: int| 0 <= j < i && !keep[j];
        assert(!(forall|j: int| 0 <= j < keep.len() ==> keep[j]));
        assert(kept_at(sel, keep));
    }
    Ok(())
}

/// The indices `i < k` with `keep[i]`, in order.
pub open spec fn kept_indices(keep: Seq<bool>, k: int) -> Seq<int>
    decreases k,
{
    if k <= 0 { Seq::empty() } else { let r = kept_indices(keep, k - 1); if keep[k - 1] { r.push(k - 1) } else { r } }
}

/// Whether `sel` lists, in order, exactly the indices kept.
pub open spec fn kept_at(sel: Seq<int>, keep: Seq<bool>) -> bool {
    sel == kept_indices(keep, keep.len() as int)
}

proof fn lemma_kept_indices(keep: Seq<bool>, k: int)
    requires 0 <= k <= keep.len(),
    ensures forall|j: int| 0 <= j < kept_indices(keep, k).len() ==> 0 <= #[trigger] kept_indices(keep, k)[j] < k,
    decreases k,
{
    if k > 0 {
        lemma_kept_indices(keep, k - 1);
        let r = kept_indices(keep, k - 1);
        assert forall|j: int| 0 <= j < kept_indices(keep, k).len() implies 0 <= #[trigger] kept_indices(keep, k)[j] < k by {
            if j < r.len() { assert(kept_indices(keep, k)[j] == r[j]); }
        }
    }
}

/// Keeps the items whose flag is set, in order.
fn retain_by_flags(v: &mut Vec<FileRef>, flags: &Vec<bool>, Ghost(keep): Ghost<Seq<bool>>, Ghost(sel): Ghost<Seq<int>>)
    requires flags@ == keep, keep.len() == old(v)@.len(), sel == kept_indices(keep, keep.len() as int),
    ensures final(v)@ == sel.map_values(|i: int| old(v)@[i]), final(v)@.len() <= old(v)@.len(),
{
    let ghost s = v@;
    let mut src: Vec<FileRef> = Vec::new();
    std::mem::swap(v, &mut src);
    let mut k: usize = 0;
    proof { assert(kept_indices(keep, 0).map_values(|i: int| s[i]) =~= Seq::<FileRef>::empty()); }
    while k < flags.len()
        invariant
            k <= flags@.len(), flags@ == keep, keep.len() == s.len(),
            src@ == s.skip(k as int), v@ == kept_indices(keep, k as int).map_values(|i: int| s[i]),
            v@.len() <= k,
        decreases flags@.len() - k,
    {
        let t = src.remove(0);
        proof { assert(s.skip(k + 1) =~= s.skip(k as int).remove(0)); }
        let ghost before = v@;
        if flags[k] {
            v.push(t);
        }
        proof {
            assert(v@ =~= kept_indices(keep, k + 1).map_values(|i: int| s[i]));
        }
        k += 1;
    }
}

fn known_list(names: &Vec<Option<String>>) -> (r: Vec<String>)
    ensures texts(r@) == known_names(opt_texts(names@)),
{
    let ghost ov = opt_texts(names@);
    let mut r: Vec<String> = Vec::new();
    let mut i: usize = 0;
    while i < names.len()
        invariant i <= names@.len(), ov == opt_texts(names@), texts(r@) == known_names(ov.take(i as int)),
        decreases names@.len() - i,
    {
        proof { assert(ov.take(i + 1).drop_last() =~= ov.take(i as int)); assert(ov.take(i + 1).last() == net_view(names@[i as int])); }
        let ghost before = texts(r@);
        match &names[i] {
            Some(n) => {
                r.push(n.clone());
                proof { assert(texts(r@) =~= before.push(r@.last()@)); }
            },
            None => {},
        }
        i += 1;
    }
    proof { assert(ov.take(ov.len() as int) =~= ov); }
    r
}

} // verus!
