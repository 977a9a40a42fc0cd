//! The connections of a group, filed under each person they involve.

use crate::connection::{Connection, ConnectionType};
use crate::person::Person;
use crate::seating::membership;
use std::collections::HashMap;
use vstd::prelude::*;
use vstd::std_specs::convert::IntoSpec;

verus! {

/// What adding `connection` files under `person`: one copy for each end of
/// the connection that is `person`.
pub open spec fn filed_under(person: Person, connection: Connection) -> Seq<Connection> {
    (if connection.person_a == person {
        seq![connection]
    } else {
        seq![]
    }) + (if connection.person_b == person {
        seq![connection]
    } else {
        seq![]
    })
}

/// The connections filed under `person` once `added` have been added, in
/// the order in which they were.
pub open spec fn links(added: Seq<Connection>, person: Person) -> Seq<Connection>
    decreases added.len(),
{
    if added.len() == 0 {
        seq![]
    } else {
        links(added.drop_last(), person) + filed_under(person, added.last())
    }
}

/// Everything filed under `person` was added, and involves `person`.
pub proof fn lemma_links_come_from_added(added: Seq<Connection>, person: Person, j: int)
    requires
        0 <= j < links(added, person).len(),
    ensures
        added.contains(links(added, person)[j]),
        links(added, person)[j].person_a == person || links(added, person)[j].person_b == person,
    decreases added.len(),
{
    if added.len() > 0 {
        let earlier = links(added.drop_last(), person);
        if j < earlier.len() {
            lemma_links_come_from_added(added.drop_last(), person, j);
            let i = choose|i: int|
                0 <= i < added.drop_last().len() && added.drop_last()[i] == earlier[j];
            assert(added[i] == earlier[j]);
        } else {
            assert(links(added, person)[j] == added.last());
            assert(added[added.len() - 1] == added.last());
        }
    }
}

/// Everything that was added is filed under both of its ends.
pub proof fn lemma_added_is_filed(added: Seq<Connection>, i: int)
    requires
        0 <= i < added.len(),
    ensures
        links(added, added[i].person_a).contains(added[i]),
        links(added, added[i].person_b).contains(added[i]),
    decreases added.len(),
{
    let a = added[i].person_a;
    let b = added[i].person_b;
    let earlier_a = links(added.drop_last(), a);
    let earlier_b = links(added.drop_last(), b);
    if i < added.len() - 1 {
        lemma_added_is_filed(added.drop_last(), i);
        let ja = choose|j: int| 0 <= j < earlier_a.len() && earlier_a[j] == added[i];
        assert(links(added, a)[ja] == added[i]);
        let jb = choose|j: int| 0 <= j < earlier_b.len() && earlier_b[j] == added[i];
        assert(links(added, b)[jb] == added[i]);
    } else {
        assert(links(added, a)[earlier_a.len() as int] == added[i]);
        assert(links(added, b)[links(added, b).len() - 1] == added[i]);
    }
}

/// Whether every connection in `added` is between two of `people`.
pub open spec fn all_known(people: Seq<Person>, added: Seq<Connection>) -> bool {
    forall|i: int|
        0 <= i < added.len() ==> people.contains((#[trigger] added[i]).person_a)
            && people.contains(added[i].person_b)
}

/// For each person, the connections that involve that person.
pub struct RelationshipIndex {
    lists: HashMap<u8, Vec<Connection>>,
    added: Ghost<Seq<Connection>>,
}

impl View for RelationshipIndex {
    type V = Seq<Connection>;

    /// The connections in the order in which they were added.
    closed spec fn view(&self) -> Seq<Connection> {
        self.added@
    }
}

impl RelationshipIndex {
    #[verifier::type_invariant]
    closed spec fn filed_right(self) -> bool {
        forall|number: u8|
            if #[trigger] self.lists@.contains_key(number) {
                &&& self.lists@[number]@ == links(self.added@, Person(number))
                &&& self.lists@[number]@.len() > 0
            } else {
                links(self.added@, Person(number)).len() == 0
            }
    }

    /// An index without connections.
    pub fn new() -> (index: RelationshipIndex)
        ensures
            index@ == Seq::<Connection>::empty(),
    {
        RelationshipIndex { lists: HashMap::new(), added: Ghost(Seq::empty()) }
    }

    /// Adds a connection of `kind` between `person_a` and `person_b`.
    pub fn connect(&mut self, person_a: Person, person_b: Person, kind: ConnectionType)
        ensures
            final(self)@ == old(self)@.push(Connection { person_a, person_b, kind }),
    {
        let mut taken = RelationshipIndex::new();
        std::mem::swap(self, &mut taken);
        proof {
            use_type_invariant(&taken);
        }
        let connection = Connection { person_a, person_b, kind };
        let ghost before = taken.added@;
        let mut lists = taken.lists;
        let mut list_a = match lists.remove(&person_a.0) {
            Some(list) => list,
            None => Vec::new(),
        };
        list_a.push(connection);
        lists.insert(person_a.0, list_a);
        let mut list_b = match lists.remove(&person_b.0) {
            Some(list) => list,
            None => Vec::new(),
        };
        list_b.push(connection);
        lists.insert(person_b.0, list_b);
        proof {
            let after = before.push(connection);
            assert(after.drop_last() == before);
            assert forall|number: u8|
                if #[trigger] lists@.contains_key(number) {
                    &&& lists@[number]@ == links(after, Person(number))
                    &&& lists@[number]@.len() > 0
                } else {
                    links(after, Person(number)).len() == 0
                } by {
                let person = Person(number);
                assert(links(after, person) == links(before, person) + filed_under(
                    person,
                    connection,
                ));
                if lists@.contains_key(number) {
                    assert(lists@[number]@ =~= links(after, person));
                }
            }
        }
        *self = RelationshipIndex { lists, added: Ghost(before.push(connection)) };
    }

    /// Whether every connection is between two of `people`.
    pub fn mentions_only(&self, people: &Vec<Person>) -> (known: bool)
        ensures
            known == all_known(people@, self@),
    {
        proof {
            use_type_invariant(self);
        }
        let present = membership(people);
        let mut n: usize = 0;
        while n < 256
            invariant
                n <= 256,
                present.len() == 256,
                forall|number: u8| #[trigger]
                    present[number as int] == people@.contains(Person(number)),
                forall|number: u8, j: int|
                    number < n && 0 <= j < links(self@, Person(number)).len() ==> {
                        let filed = #[trigger] links(self@, Person(number))[j];
                        people@.contains(filed.person_a) && people@.contains(filed.person_b)
                    },
            decreases 256 - n,
        {
            let person = Person(n as u8);
            match self.connections_of(person) {
                Some(list) => {
                    let mut k: usize = 0;
                    while k < list.len()
                        invariant
                            k <= list.len(),
                            list@ == links(self@, person),
                            present.len() == 256,
                            forall|number: u8| #[trigger]
                                present[number as int] == people@.contains(Person(number)),
                            forall|j: int|
                                0 <= j < k ==> people@.contains((#[trigger] list[j]).person_a)
                                    && people@.contains(list[j].person_b),
                        decreases list.len() - k,
                    {
                        let a = list[k].person_a;
                        let b = list[k].person_b;
                        assert(a == Person(a.0) && b == Person(b.0));
                        if !present[a.0 as usize] || !present[b.0 as usize] {
                            proof {
                                lemma_links_come_from_added(self@, person, k as int);
                            }
                            return false;
                        }
                        k += 1;
                    }
                },
                None => {},
            }
            n += 1;
        }
        proof {
            assert forall|i: int| 0 <= i < self@.len() implies people@.contains(
                (#[trigger] self@[i]).person_a,
            ) && people@.contains(self@[i].person_b) by {
                lemma_added_is_filed(self@, i);
                let a = self@[i].person_a;
                assert(a == Person(a.0));
                let j = choose|j: int|
                    0 <= j < links(self@, a).len() && links(self@, a)[j] == self@[i];
                assert(links(self@, Person(a.0))[j] == self@[i]);
            }
        }
        true
    }

    /// The connections that involve `person`, if there are any.
    pub fn connections_of(&self, person: Person) -> (found: Option<&Vec<Connection>>)
        ensures
            match found {
                Some(list) => list@ == links(self@, person) && list@.len() > 0,
                None => links(self@, person).len() == 0,
            },
    {
        proof {
            use_type_invariant(self);
        }
        self.lists.get(&person.0)
    }
}

/// Adds a connection of `kind` between the two people that `person_a` and
/// `person_b` convert into.
pub fn add_connection<T: Into<Person>>(
    connections: &mut RelationshipIndex,
    person_a: T,
    person_b: T,
    kind: ConnectionType,
)
    ensures
        final(connections)@.len() == old(connections)@.len() + 1,
        final(connections)@.drop_last() == old(connections)@,
        final(connections)@.last().kind == kind,
        call_ensures(T::into, (person_a,), final(connections)@.last().person_a),
        call_ensures(T::into, (person_b,), final(connections)@.last().person_b),
        T::obeys_into_spec() ==> final(connections)@ == old(connections)@.push(
            Connection {
                person_a: person_a.into_spec(),
                person_b: person_b.into_spec(),
                kind,
            },
        ),
{
    let a: Person = person_a.into();
    let b: Person = person_b.into();
    connections.connect(a, b, kind);
}

} // verus!
