//! What the library knows of the file system: for each path asked about,
//! either the text of the file or the fact that there is no such file.
use vstd::prelude::*;
use crate::text::same_text;

verus! {

pub open spec fn text_view(t: Option<String>) -> Option<Seq<char>> {
    match t {
        Some(s) => Some(s@),
        None => None,
    }
}

/// The map that a list of entries stands for; a later entry for a path
/// overrides an earlier one.
pub open spec fn entries_map(es: Seq<(String, Option<String>)>) -> Map<Seq<char>, Option<Seq<char>>>
    decreases es.len(),
{
    if es.len() == 0 {
        Map::empty()
    } else {
        entries_map(es.drop_last()).insert(es.last().0@, text_view(es.last().1))
    }
}

/// Known file contents, keyed by path. A path maps to `Some(text)` where the
/// file exists and holds `text`, and to `None` where no file is there.
pub struct Sources {
    entries: Vec<(String, Option<String>)>,
}

impl View for Sources {
    type V = Map<Seq<char>, Option<Seq<char>>>;

    closed spec fn view(&self) -> Self::V {
        entries_map(self.entries@)
    }
}

impl Sources {
    /// A store that knows of no path yet.
    pub fn new() -> (r: Sources)
        ensures
            r@ == Map::<Seq<char>, Option<Seq<char>>>::empty(),
    {
        Sources { entries: Vec::new() }
    }

    /// Records that `path` holds `contents` (`None`: no file is there).
    pub fn insert(&mut self, path: String, contents: Option<String>)
        ensures
            final(self)@ == old(self)@.insert(path@, text_view(contents)),
    {
        self.entries.push((path, contents));
        proof {
            assert(final(self).entries@.drop_last() =~= old(self).entries@);
        }
    }

    /// What is known of `path`: `None` where nothing is, `Some(None)` where no
    /// file is there, `Some(Some(text))` where the file holds `text`.
    pub fn lookup(&self, path: &str) -> (r: Option<Option<String>>)
        ensures
            r.is_some() == self@.contains_key(path@),
            r.is_some() ==> text_view(r.unwrap()) == self@[path@],
    {
        let mut i: usize = self.entries.len();
        proof {
            assert(self.entries@.take(i as int) =~= self.entries@);
        }
        while i > 0
            invariant
                i <= self.entries@.len(),
                entries_map(self.entries@).contains_key(path@) == entries_map(
                    self.entries@.take(i as int),
                ).contains_key(path@),
                entries_map(self.entries@).contains_key(path@) ==> entries_map(self.entries@)[path@]
                    == entries_map(self.entries@.take(i as int))[path@],
            decreases i,
        {
            let ghost pre = self.entries@.take(i as int);
            proof {
                assert(pre.drop_last() =~= self.entries@.take(i - 1));
            }
            let e = &self.entries[i - 1];
            if same_text(e.0.as_str(), path) {
                let c = match &e.1 {
                    Some(t) => Some(t.clone()),
                    None => None,
                };
                proof {
                    assert(pre.last() == *e);
                }
                return Some(c);
            }
            i = i - 1;
        }
        proof {
            assert(self.entries@.take(0) =~= Seq::<(String, Option<String>)>::empty());
        }
        None
    }
}

} // verus!
