//! The registry of admitted users, kept in admission order.
use vstd::prelude::*;

verus! {

/// An admitted user: a display name and the connection it chats over. The
/// connection is an identifier that the caller maps to its open stream.
pub struct User {
    name: String,
    stream: u64,
}

impl View for User {
    type V = (Seq<char>, u64);

    closed spec fn view(&self) -> (Seq<char>, u64) {
        (self.name@, self.stream)
    }
}

impl User {
    pub fn new(login: String, stream: u64) -> (r: User)
        ensures
            r@ == (login@, stream),
    {
        User { name: login, stream }
    }

    pub fn name(&self) -> (r: &String)
        ensures
            r@ == self@.0,
    {
        &self.name
    }

    pub fn stream(&self) -> (r: u64)
        ensures
            r == self@.1,
    {
        self.stream
    }
}

/// Whether `i` is the first position in `users` whose name is `name`.
pub open spec fn first_match(users: Seq<(Seq<char>, u64)>, name: Seq<char>, i: int) -> bool {
    &&& 0 <= i < users.len()
    &&& users[i].0 == name
    &&& forall|j: int| 0 <= j < i ==> users[j].0 != name
}

/// Whether some entry of `users` is named `name`.
pub open spec fn has_name(users: Seq<(Seq<char>, u64)>, name: Seq<char>) -> bool {
    exists|i: int| 0 <= i < users.len() && users[i].0 == name
}

/// The first position in `users` named `name`, or -1 where there is none.
pub open spec fn index_of(users: Seq<(Seq<char>, u64)>, name: Seq<char>) -> int {
    if exists|i: int| first_match(users, name, i) {
        choose|i: int| first_match(users, name, i)
    } else {
        -1
    }
}

/// `users` with the first entry named `name` taken out, the others keeping
/// their order; unchanged where no entry has that name.
pub open spec fn remove_first(users: Seq<(Seq<char>, u64)>, name: Seq<char>) -> Seq<
    (Seq<char>, u64),
> {
    if index_of(users, name) >= 0 {
        users.remove(index_of(users, name))
    } else {
        users
    }
}

/// No two entries share a name.
pub open spec fn names_unique(users: Seq<(Seq<char>, u64)>) -> bool {
    forall|i: int, j: int|
        0 <= i < users.len() && 0 <= j < users.len() && i != j ==> users[i].0 != users[j].0
}

/// A name has at most one first position.
pub proof fn lemma_first_match_unique(users: Seq<(Seq<char>, u64)>, name: Seq<char>, i: int)
    requires
        first_match(users, name, i),
    ensures
        index_of(users, name) == i,
{
    let k = index_of(users, name);
    assert(first_match(users, name, k));
    if k < i {
        assert(users[k].0 != name);
    }
    if i < k {
        assert(users[i].0 != name);
    }
}

/// An entry named `name` at `w` means that the name has a first position.
proof fn lemma_first_match_exists(users: Seq<(Seq<char>, u64)>, name: Seq<char>, w: int)
    requires
        0 <= w < users.len(),
        users[w].0 == name,
    ensures
        exists|i: int| first_match(users, name, i),
    decreases w,
{
    if forall|j: int| 0 <= j < w ==> users[j].0 != name {
        assert(first_match(users, name, w));
    } else {
        let j = choose|j: int| 0 <= j < w && users[j].0 == name;
        lemma_first_match_exists(users, name, j);
    }
}

/// A name is found exactly where some entry carries it.
pub proof fn lemma_index_of_found(users: Seq<(Seq<char>, u64)>, name: Seq<char>)
    ensures
        index_of(users, name) >= 0 <==> has_name(users, name),
        index_of(users, name) >= 0 ==> first_match(users, name, index_of(users, name)),
{
    if has_name(users, name) {
        let w = choose|w: int| 0 <= w < users.len() && users[w].0 == name;
        lemma_first_match_exists(users, name, w);
    }
}

/// The admitted users, in admission order.
pub struct Registry {
    users: Vec<User>,
}

impl View for Registry {
    type V = Seq<(Seq<char>, u64)>;

    closed spec fn view(&self) -> Seq<(Seq<char>, u64)> {
        self.users@.map_values(|u: User| u@)
    }
}

impl Registry {
    pub fn new() -> (r: Registry)
        ensures
            r@ == Seq::<(Seq<char>, u64)>::empty(),
    {
        let r = Registry { users: Vec::new() };
        assert(r@ =~= Seq::<(Seq<char>, u64)>::empty());
        r
    }

    pub fn len(&self) -> (r: usize)
        ensures
            r == self@.len(),
    {
        self.users.len()
    }

    /// The user at position `i`, counting in admission order.
    pub fn get(&self, i: usize) -> (r: &User)
        requires
            i < self@.len(),
        ensures
            r@ == self@[i as int],
    {
        &self.users[i]
    }

    /// Appends a user at the tail.
    pub fn add_user(&mut self, user: User)
        ensures
            final(self)@ == old(self)@.push(user@),
    {
        self.users.push(user);
        assert(self@ =~= old(self)@.push(user@));
    }

    /// Whether some user is named `name`.
    pub fn contains(&self, name: &String) -> (r: bool)
        ensures
            r == has_name(self@, name@),
    {
        let mut i: usize = 0;
        while i < self.users.len()
            invariant
                0 <= i <= self@.len(),
                self@.len() == self.users@.len(),
                forall|j: int| 0 <= j < i ==> self@[j].0 != name@,
            decreases self@.len() - i,
        {
            if self.users[i].name == *name {
                assert(self@[i as int].0 == name@);
                return true;
            }
            i = i + 1;
        }
        false
    }

    /// Takes out the first user named `name`, keeping the order of the rest.
    pub fn delete_user(&mut self, name: &String) -> (r: Option<User>)
        ensures
            r is None <==> !has_name(old(self)@, name@),
            r is Some ==> r->Some_0@ == old(self)@[index_of(old(self)@, name@)],
            final(self)@ == remove_first(old(self)@, name@),
    {
        proof {
            lemma_index_of_found(self@, name@);
        }
        let mut i: usize = 0;
        while i < self.users.len()
            invariant
                0 <= i <= self@.len(),
                self@ == old(self)@,
                self@.len() == self.users@.len(),
                forall|j: int| 0 <= j < i ==> self@[j].0 != name@,
            decreases self@.len() - i,
        {
            if self.users[i].name == *name {
                proof {
                    assert(first_match(self@, name@, i as int));
                    lemma_first_match_unique(self@, name@, i as int);
                }
                let ghost before = self.users@;
                let user = self.users.remove(i);
                assert(self@ =~= old(self)@.remove(i as int)) by {
                    assert(self.users@ == before.remove(i as int));
                };
                return Some(user);
            }
            i = i + 1;
        }
        proof {
            assert(!exists|k: int| first_match(old(self)@, name@, k));
        }
        None
    }
}

} // verus!
