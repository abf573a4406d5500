//! The store's laws, proved once over the mathematical model `DbView` that
//! every engine contract speaks of: what a sequence of puts and deletes
//! leaves visible, and what it does to the log.

use vstd::prelude::*;

use crate::format::record_of;
use crate::format::lemma_value_at_record;
use crate::format::SEP;
use crate::format::END;
use crate::index::key_index;
use crate::store::DbView;
use crate::store::lemma_put_wf;
use crate::store::lemma_delete_wf;

verus! {

/// After a put, the key is live, it sits at the place its first insertion
/// gave it, and its offset points at the value just written.
proof fn lemma_put_pins(m: DbView, k: Seq<u8>, v: Seq<u8>)
    requires
        m.wf(),
        m.log.len() + k.len() + 1 <= u64::MAX,
    ensures
        m.put(k, v).wf(),
        m.put(k, v).spec_has(k),
        key_index(m.put(k, v).entries, k) == if m.spec_has(k) {
            key_index(m.entries, k)
        } else {
            m.entries.len() as int
        },
        m.put(k, v).offset_of(k) == m.log.len() + k.len() + 1,
{
    let n = m.put(k, v);
    let off: u64 = (m.log.len() + k.len() + 1) as u64;
    lemma_put_wf(m, k, v);
    let j = if m.spec_has(k) {
        key_index(m.entries, k)
    } else {
        m.entries.len() as int
    };
    if m.spec_has(k) {
        assert(0 <= j < m.entries.len() && m.entries[j].0 == k);
    }
    assert(n.entries[j] == (k, off));
    assert(n.spec_has(k));
    let i = key_index(n.entries, k);
    assert(0 <= i < n.entries.len() && n.entries[i].0 == k);
    assert(i == j);
}

/// Round trip: putting a non-empty key and value that hold neither the
/// separator nor the terminator byte, then looking the key up, reads back
/// exactly the value that was written.
pub proof fn lemma_round_trip(m: DbView, k: Seq<u8>, v: Seq<u8>)
    requires
        m.wf(),
        k.len() > 0,
        v.len() > 0,
        forall|i: int| 0 <= i < k.len() ==> #[trigger] k[i] != SEP && k[i] != END,
        forall|i: int| 0 <= i < v.len() ==> #[trigger] v[i] != SEP && v[i] != END,
        m.log.len() + k.len() + 1 <= u64::MAX,
    ensures
        m.put(k, v).wf(),
        m.put(k, v).spec_has(k),
        m.put(k, v).spec_get(k) == Some(v),
{
    lemma_put_pins(m, k, v);
    lemma_value_at_record(m.log, k, v);
}

/// A key that no write has touched is absent: whatever bytes the log holds,
/// the existence check says no and the lookup finds nothing. This is the
/// state an open with truncation yields, and the one an open of pre-existing
/// bytes (without a rebuilding scan) yields as well.
pub proof fn lemma_absent_fresh(log: Seq<u8>, k: Seq<u8>)
    ensures
        !(DbView { log, entries: Seq::empty() }).spec_has(k),
        (DbView { log, entries: Seq::empty() }).spec_get(k) == None::<Seq<u8>>,
{
}

/// Operations on one key leave another key's presence alone: a put or a
/// delete of `k2` neither adds nor removes a different key `k`.
pub proof fn lemma_other_key_untouched(m: DbView, k: Seq<u8>, k2: Seq<u8>, v: Seq<u8>)
    requires
        m.wf(),
        k != k2,
    ensures
        m.put(k2, v).spec_has(k) == m.spec_has(k),
        m.delete(k2).spec_has(k) == m.spec_has(k),
{
    let p = m.put(k2, v);
    if m.spec_has(k2) {
        let j = key_index(m.entries, k2);
        assert(0 <= j < m.entries.len() && m.entries[j].0 == k2);
        assert(forall|c: int| 0 <= c < p.entries.len() ==> (#[trigger] p.entries[c]).0 == m.entries[c].0);
        assert(m.spec_has(k) ==> p.spec_has(k)) by {
            if m.spec_has(k) {
                let a = key_index(m.entries, k);
                assert(p.entries[a].0 == k);
            }
        }
        assert(p.spec_has(k) ==> m.spec_has(k)) by {
            if p.spec_has(k) {
                let a = key_index(p.entries, k);
                assert(m.entries[a].0 == k);
            }
        }
    } else {
        assert(m.spec_has(k) ==> p.spec_has(k)) by {
            if m.spec_has(k) {
                let a = key_index(m.entries, k);
                assert(p.entries[a].0 == k);
            }
        }
        assert(p.spec_has(k) ==> m.spec_has(k)) by {
            if p.spec_has(k) {
                let a = key_index(p.entries, k);
                assert(0 <= a < p.entries.len() && p.entries[a].0 == k);
                assert(a < m.entries.len());
                assert(m.entries[a].0 == k);
            }
        }
    }

    let d = m.delete(k2);
    if m.spec_has(k2) {
        let j = key_index(m.entries, k2);
        assert(0 <= j < m.entries.len() && m.entries[j].0 == k2);
        assert(m.spec_has(k) ==> d.spec_has(k)) by {
            if m.spec_has(k) {
                let a = key_index(m.entries, k);
                assert(0 <= a < m.entries.len() && m.entries[a].0 == k);
                assert(a != j);
                if a < j {
                    assert(d.entries[a] == m.entries[a]);
                    assert(d.entries[a].0 == k);
                } else {
                    assert(d.entries[a - 1] == m.entries[a]);
                    assert(d.entries[a - 1].0 == k);
                }
            }
        }
        assert(d.spec_has(k) ==> m.spec_has(k)) by {
            if d.spec_has(k) {
                let a = key_index(d.entries, k);
                assert(0 <= a < d.entries.len() && d.entries[a].0 == k);
                if a < j {
                    assert(m.entries[a].0 == k);
                } else {
                    assert(d.entries[a] == m.entries[a + 1]);
                    assert(m.entries[a + 1].0 == k);
                }
            }
        }
    }
}

/// Delete is idempotent and silent: deleting an absent key changes nothing;
/// after a delete the key is absent and its lookup finds nothing, whether or
/// not it was present before; and a second delete of the same key is a
/// no-op.
pub proof fn lemma_delete_idempotent(m: DbView, k: Seq<u8>)
    requires
        m.wf(),
    ensures
        !m.spec_has(k) ==> m.delete(k) == m,
        !m.delete(k).spec_has(k),
        m.delete(k).spec_get(k) == None::<Seq<u8>>,
        m.delete(k).delete(k) == m.delete(k),
{
    lemma_delete_wf(m, k);
    let d = m.delete(k);
    if !m.spec_has(k) {
        assert(d =~= m);
    } else {
        let j = key_index(m.entries, k);
        assert(0 <= j < m.entries.len() && m.entries[j].0 == k);
        assert(!d.spec_has(k)) by {
            if d.spec_has(k) {
                let a = key_index(d.entries, k);
                assert(0 <= a < d.entries.len() && d.entries[a].0 == k);
                if a < j {
                    assert(m.entries[a].0 == k);
                    assert(a != j);
                } else {
                    assert(d.entries[a] == m.entries[a + 1]);
                    assert(m.entries[a + 1].0 == k);
                    assert(a + 1 != j);
                }
                assert(false);
            }
        }
    }
    assert(d.delete(k) =~= d);
}

/// Overwrite: after two puts of the same key the lookup reads the second
/// value, and the key's place in the iteration order is the one its first
/// put established. (A value holding the terminator byte would end its
/// record early and read back short, so the second value is kept free of
/// it.)
pub proof fn lemma_overwrite(m: DbView, k: Seq<u8>, v1: Seq<u8>, v2: Seq<u8>)
    requires
        m.wf(),
        forall|i: int| 0 <= i < v2.len() ==> #[trigger] v2[i] != END,
        m.log.len() + k.len() + k.len() + v1.len() + 3 <= u64::MAX,
    ensures
        m.put(k, v1).put(k, v2).spec_get(k) == Some(v2),
        key_index(m.put(k, v1).put(k, v2).entries, k) == key_index(m.put(k, v1).entries, k),
{
    let m1 = m.put(k, v1);
    lemma_put_pins(m, k, v1);
    assert(m1.log.len() == m.log.len() + k.len() + v1.len() + 2);
    lemma_put_pins(m1, k, v2);
    lemma_value_at_record(m1.log, k, v2);
}

/// The log never shrinks: a delete leaves the stored bytes exactly as they
/// were, and a put only appends its one record.
pub proof fn lemma_log_only_grows(m: DbView, k: Seq<u8>, v: Seq<u8>)
    ensures
        m.delete(k).log == m.log,
        m.put(k, v).log == m.log + record_of(k, v),
        m.put(k, v).log.len() == m.log.len() + k.len() + v.len() + 2,
{
}

} // verus!
