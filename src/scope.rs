use vstd::prelude::*;

use crate::ser::start_tag;

verus! {

/// A binding that records nothing: empty prefix and empty namespace.
pub open spec fn is_blank(b: (Seq<char>, Seq<char>)) -> bool {
    b.0.len() == 0 && b.1.len() == 0
}

/// Whether installing binding `b` over `table` leaves it out: a slot with no
/// prefix, a binding to the empty namespace (which has no name to declare a
/// prefix for), or a namespace that already has a prefix.
pub open spec fn skips(table: Map<Seq<char>, Seq<char>>, b: (Seq<char>, Seq<char>)) -> bool {
    b.0.len() == 0 || b.1.len() == 0 || table.contains_key(b.1)
}

/// The table after installing the bindings of `frame` in order.
pub open spec fn install(
    table: Map<Seq<char>, Seq<char>>,
    frame: Seq<(Seq<char>, Seq<char>)>,
) -> Map<Seq<char>, Seq<char>>
    decreases frame.len(),
{
    if frame.len() == 0 {
        table
    } else {
        let t = install(table, frame.drop_last());
        let b = frame.last();
        if skips(t, b) {
            t
        } else {
            t.insert(b.1, b.0)
        }
    }
}

/// The declaration text ` xmlns:prefix="ns"`.
pub open spec fn declaration(b: (Seq<char>, Seq<char>)) -> Seq<char> {
    " xmlns:"@ + b.0 + "=\""@ + b.1 + "\""@
}

/// The declarations written while installing `frame` over `table`.
pub open spec fn declarations(
    table: Map<Seq<char>, Seq<char>>,
    frame: Seq<(Seq<char>, Seq<char>)>,
) -> Seq<char>
    decreases frame.len(),
{
    if frame.len() == 0 {
        Seq::empty()
    } else {
        let rest = declarations(table, frame.drop_last());
        let b = frame.last();
        if skips(install(table, frame.drop_last()), b) {
            rest
        } else {
            rest + declaration(b)
        }
    }
}

/// The undo records of installing `frame` over `table`: for each binding
/// installed, in order, its namespace with the empty prefix it had before.
pub open spec fn undo_records(
    table: Map<Seq<char>, Seq<char>>,
    frame: Seq<(Seq<char>, Seq<char>)>,
) -> Seq<(Seq<char>, Seq<char>)>
    decreases frame.len(),
{
    if frame.len() == 0 {
        Seq::empty()
    } else {
        let rest = undo_records(table, frame.drop_last());
        let b = frame.last();
        if skips(install(table, frame.drop_last()), b) {
            rest
        } else {
            rest.push((Seq::empty(), b.1))
        }
    }
}

/// The table after restoring the records of `frame` in order: a blank record
/// does nothing, one with an empty prefix removes its namespace, and any other
/// binds its namespace to its prefix again.
pub open spec fn restore(
    table: Map<Seq<char>, Seq<char>>,
    frame: Seq<(Seq<char>, Seq<char>)>,
) -> Map<Seq<char>, Seq<char>>
    decreases frame.len(),
{
    if frame.len() == 0 {
        table
    } else {
        let t = restore(table, frame.drop_last());
        let b = frame.last();
        if is_blank(b) {
            t
        } else if b.0.len() == 0 {
            t.remove(b.1)
        } else {
            t.insert(b.1, b.0)
        }
    }
}

/// Whether every record of `frame` that is not blank finds its namespace in
/// the table when its turn comes.
pub open spec fn restorable(
    table: Map<Seq<char>, Seq<char>>,
    frame: Seq<(Seq<char>, Seq<char>)>,
) -> bool
    decreases frame.len(),
{
    if frame.len() == 0 {
        true
    } else {
        &&& restorable(table, frame.drop_last())
        &&& (is_blank(frame.last()) || restore(table, frame.drop_last()).contains_key(
            frame.last().1,
        ))
    }
}

/// `saved` holds the undo records of installing `frame` over `table`, then
/// blank slots only.
pub open spec fn records_then_blanks(
    table: Map<Seq<char>, Seq<char>>,
    frame: Seq<(Seq<char>, Seq<char>)>,
    saved: Seq<(Seq<char>, Seq<char>)>,
) -> bool {
    let records = undo_records(table, frame);
    &&& records.len() <= saved.len()
    &&& forall|i: int| 0 <= i < records.len() ==> #[trigger] saved[i] == records[i]
    &&& forall|i: int| records.len() <= i < saved.len() ==> is_blank(#[trigger] saved[i])
}

proof fn lemma_install(table: Map<Seq<char>, Seq<char>>, frame: Seq<(Seq<char>, Seq<char>)>)
    ensures
        ({
            let t = install(table, frame);
            let u = undo_records(table, frame);
            &&& forall|k: Seq<char>|
                #[trigger] table.contains_key(k) ==> t.contains_key(k) && t[k] == table[k]
            &&& forall|i: int|
                0 <= i < u.len() ==> (#[trigger] u[i]).0.len() == 0 && u[i].1.len() > 0
                    && !table.contains_key(u[i].1) && t.contains_key(u[i].1)
            &&& forall|i: int, j: int| 0 <= i < j < u.len() ==> (#[trigger] u[i]).1 != (#[trigger] u[j]).1
            &&& forall|k: Seq<char>|
                #[trigger] t.contains_key(k) ==> table.contains_key(k) || exists|i: int|
                    0 <= i < u.len() && (#[trigger] u[i]).1 == k
        }),
    decreases frame.len(),
{
    if frame.len() > 0 {
        let rest = frame.drop_last();
        lemma_install(table, rest);
        let t0 = install(table, rest);
        let u0 = undo_records(table, rest);
        let b = frame.last();
        let t = install(table, frame);
        let u = undo_records(table, frame);
        if skips(t0, b) {
            assert(t == t0);
            assert(u == u0);
        } else {
            assert(frame[frame.len() - 1] == b);
            assert(t == t0.insert(b.1, b.0));
            assert(u == u0.push((Seq::<char>::empty(), b.1)));
            assert(b.1.len() > 0);
            assert(forall|i: int| 0 <= i < u0.len() ==> u[i] == u0[i]);
            assert forall|i: int, j: int| 0 <= i < j < u.len() implies (#[trigger] u[i]).1 != (#[trigger] u[j]).1 by {
                if j == u0.len() {
                    assert(t0.contains_key(u0[i].1));
                }
            }
            assert forall|k: Seq<char>| #[trigger] t.contains_key(k) implies table.contains_key(k) || exists|i: int|
                0 <= i < u.len() && (#[trigger] u[i]).1 == k by {
                if k == b.1 {
                    assert(u[u0.len() as int].1 == k);
                } else if !table.contains_key(k) {
                    let i = choose|i: int| 0 <= i < u0.len() && (#[trigger] u0[i]).1 == k;
                    assert(u[i].1 == k);
                }
            }
        }
    }
}

proof fn lemma_restore_removals(table: Map<Seq<char>, Seq<char>>, s: Seq<(Seq<char>, Seq<char>)>)
    requires
        forall|i: int|
            0 <= i < s.len() ==> (#[trigger] s[i]).0.len() == 0 && s[i].1.len() > 0
                && table.contains_key(s[i].1),
        forall|i: int, j: int| 0 <= i < j < s.len() ==> (#[trigger] s[i]).1 != (#[trigger] s[j]).1,
    ensures
        restorable(table, s),
        forall|k: Seq<char>|
            #[trigger] restore(table, s).contains_key(k) <==> table.contains_key(k) && !(exists|i: int|
                0 <= i < s.len() && (#[trigger] s[i]).1 == k),
        forall|k: Seq<char>|
            #[trigger] restore(table, s).contains_key(k) ==> restore(table, s)[k] == table[k],
    decreases s.len(),
{
    if s.len() > 0 {
        let rest = s.drop_last();
        lemma_restore_removals(table, rest);
        let b = s.last();
        assert(s[s.len() - 1] == b);
        assert forall|i: int| 0 <= i < rest.len() implies (#[trigger] rest[i]).1 != b.1 by {
            assert(rest[i] == s[i]);
        }
        let r = restore(table, s);
        assert(r == restore(table, rest).remove(b.1));
        assert forall|k: Seq<char>| #[trigger] r.contains_key(k) <==> table.contains_key(k) && !(exists|i: int|
            0 <= i < s.len() && (#[trigger] s[i]).1 == k) by {
            if exists|i: int| 0 <= i < s.len() && (#[trigger] s[i]).1 == k {
                let i = choose|i: int| 0 <= i < s.len() && (#[trigger] s[i]).1 == k;
                if i < rest.len() {
                    assert(rest[i].1 == k);
                }
            } else {
                assert forall|i: int| 0 <= i < rest.len() implies (#[trigger] rest[i]).1 != k by {
                    assert(rest[i] == s[i]);
                }
            }
        }
    }
}

proof fn lemma_restore_blank_tail(
    table: Map<Seq<char>, Seq<char>>,
    records: Seq<(Seq<char>, Seq<char>)>,
    saved: Seq<(Seq<char>, Seq<char>)>,
)
    requires
        records.len() <= saved.len(),
        forall|i: int| 0 <= i < records.len() ==> #[trigger] saved[i] == records[i],
        forall|i: int| records.len() <= i < saved.len() ==> is_blank(#[trigger] saved[i]),
    ensures
        restorable(table, saved) == restorable(table, records),
        restore(table, saved) == restore(table, records),
    decreases saved.len(),
{
    if saved.len() == records.len() {
        assert(saved =~= records);
    } else {
        let rest = saved.drop_last();
        assert(is_blank(saved[saved.len() - 1]));
        assert forall|i: int| 0 <= i < records.len() implies #[trigger] rest[i] == records[i] by {
            assert(rest[i] == saved[i]);
        }
        assert forall|i: int| records.len() <= i < rest.len() implies is_blank(#[trigger] rest[i]) by {
            assert(rest[i] == saved[i]);
        }
        lemma_restore_blank_tail(table, records, rest);
    }
}

/// Scope balance: closing a scope with the frame that opening it returned
/// gives back exactly the table the scope was opened over.
///
/// Opening installs `frame` over `table` and hands back `saved`; whatever
/// balanced scopes run inside leave the installed table as they found it, so
/// the closing restore meets the installed table, can run every record, and
/// ends on `table` again.
pub proof fn lemma_scope_balance(
    table: Map<Seq<char>, Seq<char>>,
    frame: Seq<(Seq<char>, Seq<char>)>,
    saved: Seq<(Seq<char>, Seq<char>)>,
)
    requires
        records_then_blanks(table, frame, saved),
    ensures
        restorable(install(table, frame), saved),
        restore(install(table, frame), saved) == table,
{
    let t = install(table, frame);
    let u = undo_records(table, frame);
    lemma_install(table, frame);
    lemma_restore_removals(t, u);
    lemma_restore_blank_tail(t, u, saved);
    let r = restore(t, u);
    assert forall|k: Seq<char>| r.contains_key(k) <==> table.contains_key(k) by {
        if table.contains_key(k) {
            assert(t.contains_key(k));
            assert forall|i: int| 0 <= i < u.len() implies (#[trigger] u[i]).1 != k by {}
        }
    }
    assert(r =~= table);
}

/// Prefix reuse: installing a frame never re-declares a namespace that
/// already has a prefix, and such a namespace keeps its prefix.
///
/// So a scalar element in namespace `ns` opened inside the scope is written
/// with the prefix bound before the scope, and a frame all of whose bindings
/// are already bound (or blank) writes no declaration and changes nothing.
pub proof fn lemma_prefix_reuse(
    table: Map<Seq<char>, Seq<char>>,
    frame: Seq<(Seq<char>, Seq<char>)>,
    ns: Seq<char>,
    default_ns: Seq<char>,
    name: Seq<char>,
)
    requires
        table.contains_key(ns),
    ensures
        install(table, frame).contains_key(ns),
        install(table, frame)[ns] == table[ns],
        ns != default_ns ==> start_tag(name, ns, default_ns, install(table, frame), true) == (
            "<"@ + table[ns] + ":"@ + name,
            Some(table[ns]),
        ),
        (forall|i: int| 0 <= i < frame.len() ==> skips(table, #[trigger] frame[i])) ==> declarations(
            table,
            frame,
        ).len() == 0 && install(table, frame) == table,
    decreases frame.len(),
{
    if frame.len() > 0 {
        let rest = frame.drop_last();
        lemma_prefix_reuse(table, rest, ns, default_ns, name);
        if forall|i: int| 0 <= i < frame.len() ==> skips(table, #[trigger] frame[i]) {
            assert forall|i: int| 0 <= i < rest.len() implies skips(table, #[trigger] rest[i]) by {
                assert(rest[i] == frame[i]);
            }
            assert(skips(table, frame[frame.len() - 1]));
        }
    }
}

} // verus!
