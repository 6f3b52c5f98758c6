//! Files that have already been checked, with the names they define, for
//! files that import them.
use vstd::prelude::*;
use vstd::string::*;
use crate::names::NameMap;

verus! {

/// A checked file: its name and the table of its names.
pub struct ParsedFile {
    pub name: String,
    pub name_map: NameMap,
}

impl ParsedFile {
    /// The file's name.
    pub fn name(&self) -> (res: &str)
        ensures
            res@ == self.name@,
    {
        self.name.as_str()
    }
}

/// Position of the first file named `name`, if any.
pub open spec fn find_file(files: Seq<ParsedFile>, name: Seq<char>) -> Option<int>
    decreases files.len(),
{
    if files.len() == 0 {
        None
    } else {
        match find_file(files.drop_last(), name) {
            Some(i) => Some(i),
            None => if files.last().name@ == name {
                Some(files.len() - 1)
            } else {
                None
            },
        }
    }
}

pub proof fn lemma_find_file(files: Seq<ParsedFile>, name: Seq<char>)
    ensures
        match find_file(files, name) {
            Some(i) => 0 <= i < files.len() && files[i].name@ == name,
            None => forall|j: int| 0 <= j < files.len() ==> files[j].name@ != name,
        },
    decreases files.len(),
{
    if files.len() > 0 {
        lemma_find_file(files.drop_last(), name);
        assert forall|j: int| 0 <= j < files.len() - 1 implies files.drop_last()[j] == files[j] by {}
    }
}

/// Checked files, by name.
pub struct ParsedFileMap {
    pub files: Vec<ParsedFile>,
}

impl ParsedFileMap {
    /// Every file's table is well formed.
    pub open spec fn wf(&self) -> bool {
        forall|i: int| 0 <= i < self.files@.len() ==> (#[trigger] self.files@[i]).name_map.wf()
    }

    /// The first file named `name`, if any.
    pub fn get(&self, name: &str) -> (res: Option<&ParsedFile>)
        ensures
            match (res, find_file(self.files@, name@)) {
                (Some(f), Some(i)) => *f == self.files@[i],
                (None, None) => true,
                _ => false,
            },
    {
        let wanted = String::from_str(name);
        let mut i: usize = 0;
        while i < self.files.len()
            invariant
                wanted@ == name@,
                i <= self.files.len(),
                find_file(self.files@.take(i as int), name@) is None,
            decreases self.files.len() - i,
        {
            let ghost prefix = self.files@.take(i + 1);
            assert(prefix.drop_last() =~= self.files@.take(i as int));
            if self.files[i].name == wanted {
                proof {
                    lemma_find_file_prefix(self.files@, name@, i + 1);
                }
                return Some(&self.files[i]);
            }
            i = i + 1;
        }
        assert(self.files@.take(i as int) =~= self.files@);
        None
    }
}

/// A file found in a prefix is found at the same position in the whole.
pub proof fn lemma_find_file_prefix(files: Seq<ParsedFile>, name: Seq<char>, n: int)
    requires
        0 <= n <= files.len(),
        find_file(files.take(n), name) is Some,
    ensures
        find_file(files, name) == find_file(files.take(n), name),
    decreases files.len() - n,
{
    if n < files.len() {
        assert(files.take(n + 1).drop_last() =~= files.take(n));
        lemma_find_file_prefix(files, name, n + 1);
    } else {
        assert(files.take(n) =~= files);
    }
}

} // verus!
