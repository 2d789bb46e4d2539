use vstd::prelude::*;

use crate::scope::{
    declarations, install, is_blank, records_then_blanks, restorable, restore, undo_records,
};
use crate::text::str_eq;

verus! {

/// What can go wrong while writing a document.
#[derive(Clone, Copy, Debug, PartialEq, Eq, Structural)]
pub enum Error {
    /// A token operation was called in a state that does not allow it, or an
    /// attribute was asked for in a namespace that has no prefix bound.
    UnexpectedState,
}

/// The writer's position in the grammar.
#[derive(Clone, Copy, Debug, PartialEq, Eq, Structural)]
pub enum State {
    /// Inside a start tag, before its closing `>`.
    Attribute,
    /// Ready to start a tag, write text, or close an element.
    Element,
    /// Inside an attribute value or a leaf text node.
    Scalar,
}

/// One namespace declaration: a short prefix standing for a namespace URI.
///
/// An empty `prefix` marks an unused slot.
#[derive(Clone, Copy, Debug, Default)]
pub struct Prefix {
    pub prefix: &'static str,
    pub ns: &'static str,
}

impl View for Prefix {
    /// The pair (prefix, namespace).
    type V = (Seq<char>, Seq<char>);

    open spec fn view(&self) -> (Seq<char>, Seq<char>) {
        (self.prefix@, self.ns@)
    }
}

/// The namespace declarations that one nesting level introduces: a default
/// namespace and up to `N` prefix bindings.
///
/// The same type carries what a scope installs and, once installed, what has
/// to be restored when the scope ends.
#[derive(Debug)]
pub struct Context<const N: usize> {
    pub default_ns: &'static str,
    pub prefixes: [Prefix; N],
}

impl<const N: usize> Context<N> {
    /// The frame's bindings, slot by slot.
    pub open spec fn bindings(&self) -> Seq<(Seq<char>, Seq<char>)> {
        self.prefixes@.map_values(|p: Prefix| p@)
    }

    /// A frame with an empty default namespace and every slot blank.
    fn blank() -> (r: Self)
        ensures
            r.default_ns@.len() == 0,
            forall|i: int| 0 <= i < N ==> is_blank(#[trigger] r.prefixes@[i]@),
    {
        let blank = Prefix { prefix: "", ns: "" };
        proof {
            reveal_strlit("");
        }
        let r = Context { default_ns: "", prefixes: [blank; N] };
        assert forall|i: int| 0 <= i < N implies is_blank(#[trigger] r.prefixes@[i]@) by {
            assert(r.prefixes@[i] == blank);
        }
        r
    }
}

impl<const N: usize> Default for Context<N> {
    /// A frame with an empty default namespace and every slot blank.
    fn default() -> (r: Self)
        ensures
            r.default_ns@.len() == 0,
            forall|i: int| 0 <= i < N ==> #[trigger] is_blank(r.bindings()[i]),
    {
        Context::blank()
    }
}

/// The view of an optional prefix.
pub open spec fn opt_view(o: Option<&'static str>) -> Option<Seq<char>> {
    match o {
        Some(p) => Some(p@),
        None => None,
    }
}

/// The prefix bound to `ns` in `table`, if any.
pub open spec fn lookup(table: Map<Seq<char>, Seq<char>>, ns: Seq<char>) -> Option<Seq<char>> {
    if table.contains_key(ns) {
        Some(table[ns])
    } else {
        None
    }
}

/// The text that opens an element, and the prefix its end tag has to repeat.
///
/// In the default namespace no namespace token is written. Otherwise a scalar
/// leaf reuses a prefix already bound to `ns`; any other element declares `ns`
/// as its default namespace.
pub open spec fn start_tag(
    name: Seq<char>,
    ns: Seq<char>,
    default_ns: Seq<char>,
    table: Map<Seq<char>, Seq<char>>,
    scalar: bool,
) -> (Seq<char>, Option<Seq<char>>) {
    if ns == default_ns {
        ("<"@ + name, None)
    } else if scalar && table.contains_key(ns) {
        ("<"@ + table[ns] + ":"@ + name, Some(table[ns]))
    } else {
        ("<"@ + name + " xmlns=\""@ + ns + "\""@, None)
    }
}

/// The text of an attribute, or `None` where its namespace is neither the
/// default one nor bound to a prefix.
pub open spec fn attribute(
    name: Seq<char>,
    ns: Seq<char>,
    value: Seq<char>,
    default_ns: Seq<char>,
    table: Map<Seq<char>, Seq<char>>,
) -> Option<Seq<char>> {
    if ns == default_ns {
        Some(" "@ + name + "=\""@ + value + "\""@)
    } else if table.contains_key(ns) {
        Some(" "@ + table[ns] + ":"@ + name + "=\""@ + value + "\""@)
    } else {
        None
    }
}

/// The text of an end tag.
pub open spec fn end_tag(prefix: Option<Seq<char>>, name: Seq<char>) -> Seq<char> {
    match prefix {
        Some(p) => "</"@ + p + ":"@ + name + ">"@,
        None => "</"@ + name + ">"@,
    }
}

/// `entries` holds one entry per namespace of `table`, with its prefix.
spec fn holds_table(entries: Seq<Prefix>, table: Map<Seq<char>, Seq<char>>) -> bool {
    &&& forall|i: int, j: int|
        0 <= i < j < entries.len() ==> #[trigger] entries[i].ns@ != #[trigger] entries[j].ns@
    &&& forall|i: int|
        0 <= i < entries.len() ==> table.contains_key(#[trigger] entries[i].ns@) && table[entries[i].ns@]
            == entries[i].prefix@
    &&& forall|k: Seq<char>| #[trigger]
        table.contains_key(k) ==> exists|i: int| 0 <= i < entries.len() && #[trigger] entries[i].ns@ == k
}

proof fn lemma_holds_table_push(entries: Seq<Prefix>, table: Map<Seq<char>, Seq<char>>, b: Prefix)
    requires
        holds_table(entries, table),
        !table.contains_key(b.ns@),
    ensures
        holds_table(entries.push(b), table.insert(b.ns@, b.prefix@)),
{
    let e2 = entries.push(b);
    let t2 = table.insert(b.ns@, b.prefix@);
    assert forall|k: Seq<char>| #[trigger] t2.contains_key(k) implies exists|i: int|
        0 <= i < e2.len() && #[trigger] e2[i].ns@ == k by {
        if k == b.ns@ {
            assert(e2[entries.len() as int].ns@ == k);
        } else {
            let i = choose|i: int| 0 <= i < entries.len() && #[trigger] entries[i].ns@ == k;
            assert(e2[i].ns@ == k);
        }
    }
}

proof fn lemma_holds_table_remove(entries: Seq<Prefix>, table: Map<Seq<char>, Seq<char>>, j: int)
    requires
        holds_table(entries, table),
        0 <= j < entries.len(),
    ensures
        holds_table(entries.remove(j), table.remove(entries[j].ns@)),
{
    let e2 = entries.remove(j);
    let t2 = table.remove(entries[j].ns@);
    assert forall|i: int| 0 <= i < e2.len() implies t2.contains_key(#[trigger] e2[i].ns@)
        && t2[e2[i].ns@] == e2[i].prefix@ by {
        if i < j {
            assert(e2[i] == entries[i]);
        } else {
            assert(e2[i] == entries[i + 1]);
        }
    }
    assert forall|a: int, b: int| 0 <= a < b < e2.len() implies #[trigger] e2[a].ns@
        != #[trigger] e2[b].ns@ by {
        let a1 = if a < j { a } else { a + 1 };
        let b1 = if b < j { b } else { b + 1 };
        assert(e2[a] == entries[a1]);
        assert(e2[b] == entries[b1]);
    }
    assert forall|k: Seq<char>| #[trigger] t2.contains_key(k) implies exists|i: int|
        0 <= i < e2.len() && #[trigger] e2[i].ns@ == k by {
        let i = choose|i: int| 0 <= i < entries.len() && #[trigger] entries[i].ns@ == k;
        assert(i != j);
        if i < j {
            assert(e2[i].ns@ == k);
        } else {
            assert(e2[i - 1].ns@ == k);
        }
    }
}

proof fn lemma_holds_table_set(
    entries: Seq<Prefix>,
    table: Map<Seq<char>, Seq<char>>,
    j: int,
    b: Prefix,
)
    requires
        holds_table(entries, table),
        0 <= j < entries.len(),
        b.ns@ == entries[j].ns@,
    ensures
        holds_table(entries.update(j, b), table.insert(b.ns@, b.prefix@)),
{
    let e2 = entries.update(j, b);
    let t2 = table.insert(b.ns@, b.prefix@);
    assert forall|k: Seq<char>| #[trigger] t2.contains_key(k) implies exists|i: int|
        0 <= i < e2.len() && #[trigger] e2[i].ns@ == k by {
        let i = choose|i: int| 0 <= i < entries.len() && #[trigger] entries[i].ns@ == k;
        assert(e2[i].ns@ == k);
    }
}

proof fn lemma_restorable_take(
    table: Map<Seq<char>, Seq<char>>,
    frame: Seq<(Seq<char>, Seq<char>)>,
    i: int,
)
    requires
        restorable(table, frame),
        0 <= i <= frame.len(),
    ensures
        restorable(table, frame.take(i)),
    decreases frame.len(),
{
    if i == frame.len() {
        assert(frame.take(i) =~= frame);
    } else {
        lemma_restorable_take(table, frame.drop_last(), i);
        assert(frame.drop_last().take(i) =~= frame.take(i));
    }
}

/// A streaming writer: appends tokens to its output in grammar order and keeps
/// the table of namespace prefixes in scope.
pub struct Serializer {
    output: String,
    /// The prefixes in scope, one entry per namespace.
    prefixes: Vec<Prefix>,
    /// The namespace-to-prefix table that `prefixes` holds.
    table: Ghost<Map<Seq<char>, Seq<char>>>,
    default_ns: &'static str,
    state: State,
}

impl Serializer {
    /// The text written so far.
    pub closed spec fn text(&self) -> Seq<char> {
        self.output@
    }

    /// The namespace-to-prefix table in scope.
    pub closed spec fn table(&self) -> Map<Seq<char>, Seq<char>> {
        self.table@
    }

    /// The default namespace in scope.
    pub closed spec fn default_namespace(&self) -> Seq<char> {
        self.default_ns@
    }

    /// The writer's position in the grammar.
    pub closed spec fn state(&self) -> State {
        self.state
    }

    /// The entries in scope hold exactly the table, one entry per namespace.
    pub closed spec fn wf(&self) -> bool {
        holds_table(self.prefixes@, self.table@)
    }

    /// A writer that appends to `output`, with no prefixes bound, an empty
    /// default namespace, and ready for an element.
    pub fn new(output: String) -> (r: Self)
        ensures
            r.wf(),
            r.text() == output@,
            r.table() == Map::<Seq<char>, Seq<char>>::empty(),
            r.default_namespace() == Seq::<char>::empty(),
            r.state() == State::Element,
    {
        proof {
            reveal_strlit("");
            assert(""@ =~= Seq::<char>::empty());
        }
        Serializer {
            output,
            prefixes: Vec::new(),
            table: Ghost(Map::empty()),
            default_ns: "",
            state: State::Element,
        }
    }

    /// The text written so far.
    pub fn output(&self) -> (r: &str)
        ensures
            r@ == self.text(),
    {
        self.output.as_str()
    }

    /// Gives up the writer and hands back its text.
    pub fn into_output(self) -> (r: String)
        ensures
            r@ == self.text(),
    {
        self.output
    }

    /// The index of the entry for `ns`, if one is in scope.
    fn find(&self, ns: &str) -> (r: Option<usize>)
        requires
            self.wf(),
        ensures
            match r {
                Some(i) => i < self.prefixes@.len() && self.prefixes@[i as int].ns@ == ns@,
                None => !self.table@.contains_key(ns@),
            },
    {
        let mut i: usize = 0;
        while i < self.prefixes.len()
            invariant
                self.wf(),
                i <= self.prefixes@.len(),
                forall|j: int| 0 <= j < i ==> #[trigger] self.prefixes@[j].ns@ != ns@,
            decreases self.prefixes@.len() - i,
        {
            if str_eq(self.prefixes[i].ns, ns) {
                return Some(i);
            }
            i += 1;
        }
        None
    }

    /// Closes a namespace scope with the frame that `push` returned: restores
    /// its default namespace and, record by record, the prefixes it holds
    /// (an empty prefix removes the namespace; blank slots do nothing).
    pub fn pop<const N: usize>(&mut self, saved: Context<N>)
        requires
            old(self).wf(),
            restorable(old(self).table(), saved.bindings()),
        ensures
            final(self).wf(),
            final(self).state() == old(self).state(),
            final(self).text() == old(self).text(),
            final(self).default_namespace() == saved.default_ns@,
            final(self).table() == restore(old(self).table(), saved.bindings()),
    {
        self.default_ns = saved.default_ns;
        let ghost table0 = self.table@;
        let ghost frame = saved.bindings();
        let mut i: usize = 0;
        while i < N
            invariant
                i <= N,
                frame == saved.bindings(),
                restorable(table0, frame),
                holds_table(self.prefixes@, self.table@),
                self.state == old(self).state,
                self.output@ == old(self).output@,
                self.default_ns@ == saved.default_ns@,
                self.table@ == restore(table0, frame.take(i as int)),
            decreases N - i,
        {
            let b = saved.prefixes[i];
            proof {
                assert(frame.take(i + 1).drop_last() =~= frame.take(i as int));
                assert(frame.take(i + 1).last() == b@);
                assert(frame[i as int] == b@);
                lemma_restorable_take(table0, frame, i + 1);
                reveal_strlit("");
            }
            let blank_prefix = b.prefix.unicode_len() == 0;
            if !(blank_prefix && b.ns.unicode_len() == 0) {
                let j = self.find(b.ns).unwrap();
                let ghost entries = self.prefixes@;
                if blank_prefix {
                    self.prefixes.remove(j);
                    proof {
                        lemma_holds_table_remove(entries, self.table@, j as int);
                        self.table@ = self.table@.remove(b.ns@);
                    }
                } else {
                    let entry = Prefix { prefix: b.prefix, ns: self.prefixes[j].ns };
                    self.prefixes[j] = entry;
                    proof {
                        lemma_holds_table_set(entries, self.table@, j as int, entry);
                        self.table@ = self.table@.insert(b.ns@, b.prefix@);
                    }
                }
            }
            i += 1;
        }
        proof {
            assert(frame.take(N as int) =~= frame);
        }
    }

    /// The prefix bound to `ns`, if any.
    pub fn prefix(&self, ns: &str) -> (r: Option<&'static str>)
        requires
            self.wf(),
        ensures
            opt_view(r) == lookup(self.table(), ns@),
    {
        match self.find(ns) {
            Some(i) => Some(self.prefixes[i].prefix),
            None => None,
        }
    }

    /// Opens an element: writes `<name`, with the namespace token that
    /// `start_tag` gives, and moves to the attribute state.
    ///
    /// Returns the prefix that the element's end tag has to repeat. Fails,
    /// writing nothing, unless the writer is in the element state.
    pub fn write_start(&mut self, name: &str, ns: &str, scalar: bool) -> (r: Result<
        Option<&'static str>,
        Error,
    >)
        requires
            old(self).wf(),
        ensures
            final(self).wf(),
            final(self).table() == old(self).table(),
            final(self).default_namespace() == old(self).default_namespace(),
            old(self).state() != State::Element ==> r == Err::<Option<&'static str>, Error>(
                Error::UnexpectedState,
            ) && final(self).text() == old(self).text() && final(self).state() == old(
                self,
            ).state(),
            old(self).state() == State::Element ==> ({
                let (tag, prefix) = start_tag(
                    name@,
                    ns@,
                    old(self).default_namespace(),
                    old(self).table(),
                    scalar,
                );
                &&& r is Ok
                &&& opt_view(r->Ok_0) == prefix
                &&& final(self).text() == old(self).text() + tag
                &&& final(self).state() == State::Attribute
            }),
    {
        if self.state != State::Element {
            return Err(Error::UnexpectedState);
        }
        let prefix = if str_eq(ns, self.default_ns) {
            self.output.append("<");
            self.output.append(name);
            None
        } else {
            let found = if scalar {
                self.find(ns)
            } else {
                None
            };
            match found {
                Some(i) => {
                    let p = self.prefixes[i].prefix;
                    self.output.append("<");
                    self.output.append(p);
                    self.output.append(":");
                    self.output.append(name);
                    Some(p)
                },
                None => {
                    self.output.append("<");
                    self.output.append(name);
                    self.output.append(" xmlns=\"");
                    self.output.append(ns);
                    self.output.append("\"");
                    None
                },
            }
        };
        self.state = State::Attribute;
        Ok(prefix)
    }

    /// Writes the attribute ` name="value"` (with the prefix bound to `ns`
    /// where `ns` is not the default namespace) into the open start tag.
    ///
    /// `value` is written as given: it is the attribute's text in its escaped
    /// form. Fails, writing nothing, outside the attribute state, or where `ns`
    /// is neither the default namespace nor bound to a prefix.
    pub fn write_attr(&mut self, name: &str, ns: &str, value: &str) -> (r: Result<(), Error>)
        requires
            old(self).wf(),
        ensures
            final(self).wf(),
            final(self).table() == old(self).table(),
            final(self).default_namespace() == old(self).default_namespace(),
            final(self).state() == old(self).state(),
            ({
                let text = attribute(
                    name@,
                    ns@,
                    value@,
                    old(self).default_namespace(),
                    old(self).table(),
                );
                if old(self).state() == State::Attribute && text is Some {
                    r is Ok && final(self).text() == old(self).text() + text->Some_0
                } else {
                    r == Err::<(), Error>(Error::UnexpectedState) && final(self).text() == old(
                        self,
                    ).text()
                }
            }),
    {
        if self.state != State::Attribute {
            return Err(Error::UnexpectedState);
        }
        if str_eq(ns, self.default_ns) {
            self.output.append(" ");
        } else {
            match self.find(ns) {
                Some(i) => {
                    self.output.append(" ");
                    self.output.append(self.prefixes[i].prefix);
                    self.output.append(":");
                },
                None => {
                    return Err(Error::UnexpectedState);
                },
            }
        }
        self.output.append(name);
        self.output.append("=\"");
        self.output.append(value);
        self.output.append("\"");
        Ok(())
    }

    /// Writes text content as given (escaping is the caller's part) and moves
    /// to the element state.
    ///
    /// Fails, writing nothing, in the attribute state.
    pub fn write_str(&mut self, value: &str) -> (r: Result<(), Error>)
        requires
            old(self).wf(),
        ensures
            final(self).wf(),
            final(self).table() == old(self).table(),
            final(self).default_namespace() == old(self).default_namespace(),
            old(self).state() == State::Attribute ==> r == Err::<(), Error>(
                Error::UnexpectedState,
            ) && final(self).text() == old(self).text() && final(self).state() == State::Attribute,
            old(self).state() != State::Attribute ==> r is Ok && final(self).text() == old(
                self,
            ).text() + value@ && final(self).state() == State::Element,
    {
        if self.state == State::Attribute {
            return Err(Error::UnexpectedState);
        }
        self.output.append(value);
        self.state = State::Element;
        Ok(())
    }

    /// Ends the open start tag with `>` and moves to the element state.
    ///
    /// Fails, writing nothing, outside the attribute state.
    pub fn end_start(&mut self) -> (r: Result<(), Error>)
        requires
            old(self).wf(),
        ensures
            final(self).wf(),
            final(self).table() == old(self).table(),
            final(self).default_namespace() == old(self).default_namespace(),
            old(self).state() != State::Attribute ==> r == Err::<(), Error>(
                Error::UnexpectedState,
            ) && final(self).text() == old(self).text() && final(self).state() == old(
                self,
            ).state(),
            old(self).state() == State::Attribute ==> r is Ok && final(self).text() == old(
                self,
            ).text() + ">"@ && final(self).state() == State::Element,
    {
        if self.state != State::Attribute {
            return Err(Error::UnexpectedState);
        }
        self.output.append(">");
        self.state = State::Element;
        Ok(())
    }

    /// Writes the end tag `</prefix:name>`, or `</name>` without a prefix.
    ///
    /// Fails, writing nothing, outside the element state.
    pub fn write_close(&mut self, prefix: Option<&str>, name: &str) -> (r: Result<(), Error>)
        requires
            old(self).wf(),
        ensures
            final(self).wf(),
            final(self).table() == old(self).table(),
            final(self).default_namespace() == old(self).default_namespace(),
            final(self).state() == old(self).state(),
            old(self).state() != State::Element ==> r == Err::<(), Error>(
                Error::UnexpectedState,
            ) && final(self).text() == old(self).text(),
            old(self).state() == State::Element ==> r is Ok && final(self).text() == old(
                self,
            ).text() + end_tag(
                match prefix {
                    Some(p) => Some(p@),
                    None => None,
                },
                name@,
            ),
    {
        if self.state != State::Element {
            return Err(Error::UnexpectedState);
        }
        match prefix {
            Some(p) => {
                self.output.append("</");
                self.output.append(p);
                self.output.append(":");
                self.output.append(name);
                self.output.append(">");
            },
            None => {
                self.output.append("</");
                self.output.append(name);
                self.output.append(">");
            },
        }
        Ok(())
    }

    /// Opens a namespace scope while a start tag is open: makes
    /// `new.default_ns` the default namespace and installs each binding of
    /// `new` that has a prefix and names a non-empty namespace with no prefix
    /// yet, writing its declaration.
    ///
    /// Returns the frame that `pop` needs to restore the scope's outer state:
    /// the displaced default namespace and, slot by slot, the namespaces
    /// installed (each with an empty prefix), then blank slots. Fails, changing
    /// nothing, outside the attribute state.
    pub fn push<const N: usize>(&mut self, new: Context<N>) -> (r: Result<Context<N>, Error>)
        requires
            old(self).wf(),
        ensures
            final(self).wf(),
            final(self).state() == old(self).state(),
            old(self).state() != State::Attribute ==> r is Err && final(self).text() == old(
                self,
            ).text() && final(self).table() == old(self).table()
                && final(self).default_namespace() == old(self).default_namespace(),
            old(self).state() == State::Attribute ==> ({
                &&& r is Ok
                &&& final(self).default_namespace() == new.default_ns@
                &&& final(self).table() == install(old(self).table(), new.bindings())
                &&& final(self).text() == old(self).text() + declarations(
                    old(self).table(),
                    new.bindings(),
                )
                &&& r->Ok_0.default_ns@ == old(self).default_namespace()
                &&& records_then_blanks(old(self).table(), new.bindings(), r->Ok_0.bindings())
            }),
    {
        if self.state != State::Attribute {
            return Err(Error::UnexpectedState);
        }
        let mut undo = Context::<N>::blank();
        undo.default_ns = self.default_ns;
        self.default_ns = new.default_ns;
        let ghost table0 = self.table@;
        let ghost text0 = self.output@;
        let ghost frame = new.bindings();
        let mut used: usize = 0;
        let mut i: usize = 0;
        while i < N
            invariant
                i <= N,
                frame == new.bindings(),
                holds_table(self.prefixes@, self.table@),
                self.state == State::Attribute,
                self.default_ns@ == new.default_ns@,
                undo.default_ns@ == old(self).default_ns@,
                self.table@ == install(table0, frame.take(i as int)),
                self.output@ == text0 + declarations(table0, frame.take(i as int)),
                used == undo_records(table0, frame.take(i as int)).len(),
                used <= i,
                forall|k: int|
                    0 <= k < used ==> #[trigger] undo.prefixes@[k]@ == undo_records(
                        table0,
                        frame.take(i as int),
                    )[k],
                forall|k: int| used <= k < N ==> is_blank(#[trigger] undo.prefixes@[k]@),
            decreases N - i,
        {
            let b = new.prefixes[i];
            proof {
                assert(frame.take(i + 1).drop_last() =~= frame.take(i as int));
                assert(frame.take(i + 1).last() == b@);
                reveal_strlit("");
            }
            if b.prefix.unicode_len() != 0 && b.ns.unicode_len() != 0 && self.find(b.ns).is_none() {
                self.output.append(" xmlns:");
                self.output.append(b.prefix);
                self.output.append("=\"");
                self.output.append(b.ns);
                self.output.append("\"");
                let ghost entries = self.prefixes@;
                self.prefixes.push(b);
                proof {
                    lemma_holds_table_push(entries, self.table@, b);
                    self.table@ = self.table@.insert(b.ns@, b.prefix@);
                }
                undo.prefixes[used] = Prefix { prefix: "", ns: b.ns };
                proof {
                    assert(""@ =~= Seq::<char>::empty());
                }
                used += 1;
            }
            i += 1;
        }
        proof {
            assert(frame.take(N as int) =~= frame);
            assert(forall|k: int| 0 <= k < N ==> #[trigger] undo.bindings()[k] == undo.prefixes@[k]@);
            assert(undo.bindings().len() == N);
        }
        Ok(undo)
    }

    /// The default namespace in scope.
    pub fn default_ns(&self) -> (r: &'static str)
        ensures
            r@ == self.default_namespace(),
    {
        self.default_ns
    }
}

} // verus!
