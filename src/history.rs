use vstd::prelude::*;
use crate::ast::strings_view;
use crate::text::{chars_of, str_eq, string_from_chars, trim, trimmed};

verus! {

/// Recording `line`: its trimmed text is appended unless it is empty or repeats the last
/// entry; the oldest entry goes when the list would exceed `max`.
pub open spec fn add_spec(entries: Seq<Seq<char>>, max: nat, line: Seq<char>) -> Seq<Seq<char>> {
    let t = trimmed(line);
    if t.len() == 0 {
        entries
    } else if entries.len() > 0 && entries.last() == t {
        entries
    } else if entries.len() + 1 > max {
        entries.push(t).drop_first()
    } else {
        entries.push(t)
    }
}

/// The lines that are not blank, in order.
pub open spec fn nonblank(lines: Seq<Seq<char>>) -> Seq<Seq<char>>
    decreases lines.len(),
{
    if lines.len() == 0 {
        lines
    } else {
        let s = nonblank(lines.drop_last());
        if trimmed(lines.last()).len() > 0 {
            s.push(lines.last())
        } else {
            s
        }
    }
}

/// The lines kept when loading: those that are not blank, at most the last `max` of them.
pub open spec fn kept_lines(lines: Seq<Seq<char>>, max: nat) -> Seq<Seq<char>> {
    let f = nonblank(lines);
    if f.len() > max {
        f.subrange(f.len() - max, f.len() as int)
    } else {
        f
    }
}

/// The file text for `entries`: each entry followed by a newline.
pub open spec fn history_text(entries: Seq<Seq<char>>) -> Seq<char>
    decreases entries.len(),
{
    if entries.len() == 0 {
        Seq::empty()
    } else {
        history_text(entries.drop_last()) + entries.last() + seq!['\n']
    }
}

/// A bounded list of command lines, oldest first.
#[derive(Clone)]
pub struct HistoryManager {
    entries: Vec<String>,
    max_len: usize,
    file_path: Option<String>,
}

impl HistoryManager {
    pub closed spec fn wf(&self) -> bool {
        self.entries.len() <= self.max_len
    }

    /// The entries, oldest first.
    pub closed spec fn view(&self) -> Seq<Seq<char>> {
        strings_view(self.entries@)
    }

    pub closed spec fn max(&self) -> nat {
        self.max_len as nat
    }

    pub closed spec fn path(&self) -> Option<String> {
        self.file_path
    }

    /// An empty history holding at most `max_len` entries.
    pub fn new(max_len: usize, file_path: Option<String>) -> (r: HistoryManager)
        ensures
            r.wf(),
            r.view() == Seq::<Seq<char>>::empty(),
            r.max() == max_len,
            r.path() == file_path,
    {
        let r = HistoryManager { entries: Vec::new(), max_len, file_path };
        assert(r.view() =~= Seq::<Seq<char>>::empty());
        r
    }

    /// A history holding the non-blank `lines`, at most the last `max_len` of them.
    pub fn from_lines(lines: Vec<String>, max_len: usize, file_path: Option<String>) -> (r: HistoryManager)
        ensures
            r.wf(),
            r.view() == kept_lines(strings_view(lines@), max_len as nat),
            r.max() == max_len,
            r.path() == file_path,
    {
        let ghost lv = strings_view(lines@);
        let mut kept: Vec<String> = Vec::new();
        let mut i: usize = 0;
        while i < lines.len()
            invariant
                i <= lines.len(),
                lv == strings_view(lines@),
                strings_view(kept@) == nonblank(lv.subrange(0, i as int)),
            decreases lines.len() - i,
        {
            let ghost before = strings_view(kept@);
            let t = trim(lines[i].as_str());
            assert(lv.subrange(0, i + 1).drop_last() =~= lv.subrange(0, i as int));
            assert(lv.subrange(0, i + 1).last() == lines[i as int]@);
            if !t.as_str().is_empty() {
                kept.push(lines[i].clone());
                assert(strings_view(kept@) =~= before.push(lines[i as int]@));
            } else {
                assert(strings_view(kept@) =~= before);
            }
            i = i + 1;
        }
        assert(lv.subrange(0, i as int) =~= lv);
        let n = kept.len();
        let start: usize = if n > max_len { n - max_len } else { 0 };
        let mut entries: Vec<String> = Vec::new();
        let mut j = start;
        while j < n
            invariant
                start <= j <= n,
                n == kept.len(),
                strings_view(entries@) == strings_view(kept@).subrange(start as int, j as int),
            decreases n - j,
        {
            let ghost before = strings_view(entries@);
            entries.push(kept[j].clone());
            assert(strings_view(entries@) =~= before.push(kept[j as int]@));
            j = j + 1;
            assert(strings_view(entries@) =~= strings_view(kept@).subrange(start as int, j as int));
        }
        assert(strings_view(kept@).subrange(0, n as int) =~= strings_view(kept@));
        HistoryManager { entries, max_len, file_path }
    }

    /// Records `line` (see `add_spec`).
    pub fn add(&mut self, line: &str)
        requires
            old(self).wf(),
        ensures
            final(self).wf(),
            final(self).view() == add_spec(old(self).view(), old(self).max(), line@),
            final(self).max() == old(self).max(),
            final(self).path() == old(self).path(),
    {
        let t = trim(line);
        let ghost ev = self.view();
        if t.as_str().is_empty() {
            return;
        }
        let n = self.entries.len();
        if n > 0 && str_eq(self.entries[n - 1].as_str(), t.as_str()) {
            return;
        }
        let ghost tv = t@;
        self.entries.push(t);
        assert(self.view() =~= ev.push(tv));
        if self.entries.len() > self.max_len {
            self.entries.remove(0);
            assert(self.view() =~= ev.push(tv).drop_first());
        }
    }

    /// The entries, oldest first.
    pub fn list(&self) -> (r: &[String])
        ensures
            strings_view(r@) == self.view(),
    {
        self.entries.as_slice()
    }

    /// The entry at `idx` (0 is the oldest), if any.
    pub fn get(&self, idx: usize) -> (r: Option<&str>)
        ensures
            match r {
                Some(s) => idx < self.view().len() && s@ == self.view()[idx as int],
                None => idx >= self.view().len(),
            },
    {
        if idx < self.entries.len() {
            Some(self.entries[idx].as_str())
        } else {
            None
        }
    }

    pub fn len(&self) -> (r: usize)
        ensures
            r == self.view().len(),
    {
        self.entries.len()
    }

    /// Removes every entry.
    pub fn clear(&mut self)
        ensures
            final(self).wf(),
            final(self).view() == Seq::<Seq<char>>::empty(),
            final(self).max() == old(self).max(),
            final(self).path() == old(self).path(),
    {
        self.entries = Vec::new();
        assert(self.view() =~= Seq::<Seq<char>>::empty());
    }

    /// The newest entry, if any.
    pub fn last(&self) -> (r: Option<&str>)
        ensures
            match r {
                Some(s) => self.view().len() > 0 && s@ == self.view().last(),
                None => self.view().len() == 0,
            },
    {
        let n = self.entries.len();
        if n > 0 {
            Some(self.entries[n - 1].as_str())
        } else {
            None
        }
    }

    pub fn max_len(&self) -> (r: usize)
        ensures
            r == self.max(),
    {
        self.max_len
    }

    pub fn file_path(&self) -> (r: &Option<String>)
        ensures
            *r == self.path(),
    {
        &self.file_path
    }

    /// The text of the history file: one entry per line, oldest first.
    pub fn to_text(&self) -> (r: String)
        ensures
            r@ == history_text(self.view()),
    {
        let mut out: Vec<char> = Vec::new();
        let mut i: usize = 0;
        assert(self.view().subrange(0, 0) =~= Seq::<Seq<char>>::empty());
        while i < self.entries.len()
            invariant
                i <= self.entries.len(),
                out@ == history_text(self.view().subrange(0, i as int)),
            decreases self.entries.len() - i,
        {
            let cs = chars_of(self.entries[i].as_str());
            let ghost before = out@;
            let mut k: usize = 0;
            while k < cs.len()
                invariant
                    k <= cs.len(),
                    out@ == before + cs@.subrange(0, k as int),
                decreases cs.len() - k,
            {
                out.push(cs[k]);
                k = k + 1;
                assert(out@ =~= before + cs@.subrange(0, k as int));
            }
            out.push('\n');
            let ghost sub = self.view().subrange(0, i + 1);
            assert(sub.drop_last() =~= self.view().subrange(0, i as int));
            assert(cs@.subrange(0, k as int) =~= cs@);
            assert(out@ =~= history_text(sub));
            i = i + 1;
        }
        assert(self.view().subrange(0, i as int) =~= self.view());
        string_from_chars(&out)
    }
}

/// Adding the same line twice in a row records it once, and the bound is kept.
pub proof fn lemma_add_twice(entries: Seq<Seq<char>>, max: nat, line: Seq<char>)
    requires
        entries.len() <= max,
    ensures
        add_spec(add_spec(entries, max, line), max, line) == add_spec(entries, max, line),
        add_spec(entries, max, line).len() <= max,
{
    let t = trimmed(line);
    if t.len() > 0 && !(entries.len() > 0 && entries.last() == t) {
        let e2 = entries.push(t);
        if e2.len() > max {
            let e3 = e2.drop_first();
            if e3.len() > 0 {
                assert(e3.last() == t);
            }
        } else {
            assert(e2.last() == t);
        }
    }
}

} // verus!
