use vstd::prelude::*;

use crate::class::Class;

verus! {

/// The index of the class registered last under `name`, if any.
pub open spec fn lookup(classes: Seq<Class>, name: Seq<char>) -> Option<int>
    decreases classes.len(),
{
    if classes.len() == 0 {
        None
    } else if classes.last().this_class@ == name {
        Some(classes.len() - 1)
    } else {
        lookup(classes.drop_last(), name)
    }
}

pub proof fn lemma_lookup_found(classes: Seq<Class>, name: Seq<char>)
    ensures
        lookup(classes, name) matches Some(i) ==> 0 <= i < classes.len()
            && classes[i].this_class@ == name,
    decreases classes.len(),
{
    if classes.len() > 0 && classes.last().this_class@ != name {
        lemma_lookup_found(classes.drop_last(), name);
    }
}

/// The registry of decoded classes, keyed by binary class name. A class
/// added under a name already present shadows the earlier one.
#[derive(Debug)]
pub struct ClassLoader {
    pub class_map: Vec<Class>,
}

impl ClassLoader {
    /// An empty registry.
    pub fn new() -> (r: ClassLoader)
        ensures
            r.class_map@.len() == 0,
    {
        ClassLoader { class_map: Vec::new() }
    }

    /// Registers `class` under its own name.
    pub fn add_class(&mut self, class: Class)
        ensures
            final(self).class_map@ == old(self).class_map@.push(class),
    {
        self.class_map.push(class);
    }

    /// The class registered under `class_name`.
    pub fn find_class(&self, class_name: &String) -> (r: Option<&Class>)
        ensures
            match lookup(self.class_map@, class_name@) {
                Some(i) => r == Some(&self.class_map@[i]),
                None => r is None,
            },
    {
        let mut i: usize = self.class_map.len();
        assert(self.class_map@.subrange(0, i as int) =~= self.class_map@);
        while i > 0
            invariant
                i <= self.class_map@.len(),
                lookup(self.class_map@, class_name@) == lookup(
                    self.class_map@.subrange(0, i as int),
                    class_name@,
                ),
            decreases i,
        {
            let ghost prefix = self.class_map@.subrange(0, i as int);
            assert(prefix.drop_last() =~= self.class_map@.subrange(0, i - 1));
            if self.class_map[i - 1].this_class == *class_name {
                return Some(&self.class_map[i - 1]);
            }
            i = i - 1;
        }
        None
    }
}

} // verus!
