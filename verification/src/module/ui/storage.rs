use vstd::prelude::*;

verus! {

broadcast use vstd::string::group_string_axioms;

/// The texts of a sequence of strings.
pub open spec fn texts(s: Seq<String>) -> Seq<Seq<char>> {
    s.map_values(|t: String| t@)
}

/// The path of ids under which the user interface keeps its values: each
/// nested part of the interface pushes its id while it draws.
pub struct Storage {
    pub id_stack: Vec<String>,
}

impl Storage {
    pub fn new() -> (s: Storage)
        ensures
            s.id_stack@ == Seq::<String>::empty(),
    {
        Storage { id_stack: Vec::new() }
    }

    /// Enter the part of the interface named `id`.
    pub fn push_id(&mut self, id: &str)
        ensures
            texts(final(self).id_stack@) == texts(old(self).id_stack@).push(id@),
    {
        self.id_stack.push(id.to_string());
        proof {
            assert(texts(self.id_stack@) =~= texts(old(self).id_stack@).push(id@));
        }
    }

    /// Leave the innermost part of the interface; nothing happens at the top.
    pub fn pop_id(&mut self)
        ensures
            old(self).id_stack@.len() > 0 ==> final(self).id_stack@ == old(self).id_stack@.drop_last(),
            old(self).id_stack@.len() == 0 ==> final(self).id_stack@ == old(self).id_stack@,
    {
        self.id_stack.pop();
    }

    /// The full path under which the value `key` of the current part is kept.
    pub fn key_path(&self, key: &str) -> (path: Vec<String>)
        ensures
            texts(path@) == texts(self.id_stack@).push(key@),
    {
        let mut path = self.id_stack.clone();
        path.push(key.to_string());
        proof {
            assert(texts(path@) =~= texts(self.id_stack@).push(key@));
        }
        path
    }
}

/// Leaving a part of the interface right after entering it gives back the
/// path of ids from before: `pop_id` undoes `push_id`.
pub proof fn law_pop_undoes_push(before: Seq<String>, id: Seq<char>, pushed: Seq<String>)
    requires
        texts(pushed) == texts(before).push(id),
    ensures
        pushed.len() > 0,
        texts(pushed.drop_last()) == texts(before),
{
    assert(texts(pushed).len() == pushed.len());
    assert(texts(pushed.drop_last()) =~= texts(before)) by {
        assert forall|i: int| 0 <= i < before.len() implies texts(pushed.drop_last())[i] == texts(
            before,
        )[i] by {
            assert(texts(pushed)[i] == texts(before).push(id)[i]);
        }
    }
}

} // verus!
