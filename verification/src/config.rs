use vstd::prelude::*;

use crate::lexer::chars::text_is;

verus! {

/// What the compiler was asked to do: the entry file, where to write, and
/// which intermediate results to print.
#[derive(Debug, Clone)]
pub struct Config {
    pub entry_file: String,
    pub output_dir: String,
    pub debug_print: Vec<String>,
    pub meta_files: Vec<(String, String)>,
}

impl Default for Config {
    /// No entry file, no output directory, nothing to print.
    fn default() -> (res: Self)
        ensures
            res.entry_file@.len() == 0,
            res.output_dir@.len() == 0,
            res.debug_print@.len() == 0,
            res.meta_files@.len() == 0,
    {
        Config {
            entry_file: String::new(),
            output_dir: String::new(),
            debug_print: Vec::new(),
            meta_files: Vec::new(),
        }
    }
}

/// Two configurations ask for the same: the same texts, in the same order.
pub open spec fn same_config(a: Config, b: Config) -> bool {
    &&& a.entry_file@ == b.entry_file@
    &&& a.output_dir@ == b.output_dir@
    &&& a.debug_print@.len() == b.debug_print@.len()
    &&& forall|i: int| 0 <= i < a.debug_print@.len() ==> #[trigger] a.debug_print@[i]@ == b.debug_print@[i]@
    &&& a.meta_files@.len() == b.meta_files@.len()
    &&& forall|i: int|
        0 <= i < a.meta_files@.len() ==> (#[trigger] a.meta_files@[i]).0@ == b.meta_files@[i].0@
            && a.meta_files@[i].1@ == b.meta_files@[i].1@
}

impl Config {
    /// A copy of the configuration.
    pub fn duplicate(&self) -> (res: Config)
        ensures
            same_config(res, *self),
    {
        let mut debug_print: Vec<String> = Vec::new();
        let mut i: usize = 0;
        while i < self.debug_print.len()
            invariant
                i <= self.debug_print@.len(),
                debug_print@.len() == i,
                forall|j: int| 0 <= j < i ==> #[trigger] debug_print@[j]@ == self.debug_print@[j]@,
            decreases self.debug_print.len() - i,
        {
            debug_print.push(self.debug_print[i].clone());
            i = i + 1;
        }
        let mut meta_files: Vec<(String, String)> = Vec::new();
        let mut k: usize = 0;
        while k < self.meta_files.len()
            invariant
                k <= self.meta_files@.len(),
                meta_files@.len() == k,
                forall|j: int|
                    0 <= j < k ==> (#[trigger] meta_files@[j]).0@ == self.meta_files@[j].0@
                        && meta_files@[j].1@ == self.meta_files@[j].1@,
            decreases self.meta_files.len() - k,
        {
            let (a, b) = &self.meta_files[k];
            meta_files.push((a.clone(), b.clone()));
            k = k + 1;
        }
        Config {
            entry_file: self.entry_file.clone(),
            output_dir: self.output_dir.clone(),
            debug_print,
            meta_files,
        }
    }

    /// Whether the intermediate result `name` was asked to be printed.
    pub fn has_debug_print(&self, name: &str) -> (res: bool)
        ensures
            res == exists|i: int| 0 <= i < self.debug_print@.len() && #[trigger] self.debug_print@[i]@ == name@,
    {
        let mut i: usize = 0;
        while i < self.debug_print.len()
            invariant
                i <= self.debug_print@.len(),
                forall|j: int| 0 <= j < i ==> #[trigger] self.debug_print@[j]@ != name@,
            decreases self.debug_print.len() - i,
        {
            if text_is(self.debug_print[i].as_str(), name) {
                return true;
            }
            i = i + 1;
        }
        false
    }
}


/// What the `rock` tool was asked to do.
#[derive(Debug, Clone, Copy, PartialEq, Eq, Structural)]
pub enum Command {
    Format,
    Build,
    Run,
    Test,
    Expand,
}

/// How many times `c` occurs in `s`.
pub open spec fn count_char(s: Seq<char>, c: char) -> nat
    decreases s.len(),
{
    if s.len() == 0 {
        0
    } else {
        count_char(s.drop_last(), c) + if s.last() == c {
            1nat
        } else {
            0nat
        }
    }
}

/// The parts of `parts` joined, with `c` between each two.
pub open spec fn joined(parts: Seq<Seq<char>>, c: char) -> Seq<char>
    decreases parts.len(),
{
    if parts.len() == 0 {
        Seq::empty()
    } else if parts.len() == 1 {
        parts[0]
    } else {
        joined(parts.drop_last(), c).push(c) + parts.last()
    }
}

/// `s` cut at each `c`: the pieces hold no `c`, and joined with `c` they give
/// `s` back.
pub open spec fn is_split(s: Seq<char>, c: char, parts: Seq<Seq<char>>) -> bool {
    &&& parts.len() >= 1
    &&& forall|i: int| 0 <= i < parts.len() ==> !(#[trigger] parts[i]).contains(c)
    &&& joined(parts, c) == s
}

proof fn lemma_count_char_push(s: Seq<char>, x: char, c: char)
    ensures
        count_char(s.push(x), c) == count_char(s, c) + if x == c {
            1nat
        } else {
            0nat
        },
{
    assert(s.push(x).drop_last() =~= s);
}

proof fn lemma_count_char_absent(s: Seq<char>, c: char)
    requires
        !s.contains(c),
    ensures
        count_char(s, c) == 0,
    decreases s.len(),
{
    if s.len() > 0 {
        assert(!s.drop_last().contains(c)) by {
            if s.drop_last().contains(c) {
                let i = choose|i: int| 0 <= i < s.drop_last().len() && s.drop_last()[i] == c;
                assert(s[i] == c);
            }
        }
        lemma_count_char_absent(s.drop_last(), c);
        assert(s[s.len() - 1] != c);
    }
}

/// The text `s` cut at each `c`, as `str::split` cuts it: empty pieces are
/// kept, and a text with no `c` is one piece.
pub fn split_text(s: &str, c: char) -> (res: Vec<String>)
    ensures
        is_split(s@, c, res@.map_values(|p: String| p@)),
{
    let n = s.unicode_len();
    let mut parts: Vec<String> = Vec::new();
    let mut start: usize = 0;
    let mut i: usize = 0;
    assert(s@.subrange(0, 0) =~= Seq::<char>::empty());
    while i < n
        invariant
            n == s@.len(),
            start <= i <= n,
            !s@.subrange(start as int, i as int).contains(c),
            forall|k: int| 0 <= k < parts@.len() ==> !(#[trigger] parts@[k]@).contains(c),
            parts@.len() == 0 ==> start == 0,
            parts@.len() > 0 ==> joined(parts@.map_values(|p: String| p@), c).push(c)
                == s@.subrange(0, start as int),
        decreases n - i,
    {
        let x = s.get_char(i);
        if x == c {
            let piece = s.substring_char(start, i);
            let piece = String::from_str(piece);
            let ghost before = parts@.map_values(|p: String| p@);
            parts.push(piece);
            proof {
                let now = parts@.map_values(|p: String| p@);
                assert(now.drop_last() =~= before);
                assert(now.last() == s@.subrange(start as int, i as int));
                if before.len() == 0 {
                    assert(now =~= seq![s@.subrange(0, i as int)]);
                    assert(joined(now, c) == s@.subrange(0, i as int));
                } else {
                    assert(joined(now, c) == joined(before, c).push(c) + now.last());
                    assert(s@.subrange(0, start as int) + s@.subrange(start as int, i as int)
                        =~= s@.subrange(0, i as int));
                }
                assert(s@.subrange(0, i as int).push(c) =~= s@.subrange(0, i + 1));
            }
            start = i + 1;
            assert(s@.subrange(start as int, i + 1) =~= Seq::<char>::empty());
        } else {
            assert(s@.subrange(start as int, i + 1) =~= s@.subrange(start as int, i as int).push(x));
        }
        i = i + 1;
    }
    let last = s.substring_char(start, n);
    let last = String::from_str(last);
    let ghost before = parts@.map_values(|p: String| p@);
    parts.push(last);
    proof {
        let now = parts@.map_values(|p: String| p@);
        assert(now.drop_last() =~= before);
        if before.len() == 0 {
            assert(now =~= seq![s@.subrange(0, n as int)]);
            assert(s@.subrange(0, n as int) =~= s@);
        } else {
            assert(joined(now, c) == joined(before, c).push(c) + now.last());
            assert(s@.subrange(0, start as int) + s@.subrange(start as int, n as int) =~= s@);
        }
        assert forall|k: int| 0 <= k < now.len() implies !(#[trigger] now[k]).contains(c) by {
            if k < now.len() - 1 {
                assert(now[k] == parts@[k]@);
            }
        }
    }
    parts
}

/// A meta file given as `name=path`: the name of the crate and the path of
/// its file. Any other number of `=` than one is refused, with a message
/// that quotes the argument.
pub fn parse_meta_files(s: &str) -> (res: Result<(String, String), String>)
    ensures
        res is Ok <==> count_char(s@, '=') == 1,
        res matches Ok((name, path)) ==> name@ + seq!['='] + path@ == s@ && !name@.contains('=')
            && !path@.contains('='),
        res matches Err(message) ==> message@ == "`"@ + s@ + "` isn't in the form `name=path`"@,
{
    let parts = split_text(s, '=');
    proof {
        let views = parts@.map_values(|p: String| p@);
        law_split_piece_count(s@, '=', views);
    }
    if parts.len() == 2 {
        let name = parts[0].clone();
        let path = parts[1].clone();
        proof {
            let views = parts@.map_values(|p: String| p@);
            assert(views.drop_last() =~= seq![views[0]]);
            assert(joined(views.drop_last(), '=') == views[0]);
            assert(views.last() == views[1]);
            assert(joined(views, '=') == views[0].push('=') + views[1]);
            assert(views[0].push('=') + views[1] =~= views[0] + seq!['='] + views[1]);
        }
        Ok((name, path))
    } else {
        let mut message = String::from_str("`");
        message.append(s);
        message.append("` isn't in the form `name=path`");
        Err(message)
    }
}

/// Cutting a text at `c` gives one piece more than there are `c` in it.
pub proof fn law_split_piece_count(s: Seq<char>, c: char, parts: Seq<Seq<char>>)
    requires
        is_split(s, c, parts),
    ensures
        count_char(s, c) + 1 == parts.len(),
    decreases parts.len(),
{
    if parts.len() == 1 {
        lemma_count_char_absent(parts[0], c);
    } else {
        let init = parts.drop_last();
        assert forall|i: int| 0 <= i < init.len() implies !(#[trigger] init[i]).contains(c) by {
            assert(init[i] == parts[i]);
        }
        law_split_piece_count(joined(init, c), c, init);
        lemma_count_concat(joined(init, c).push(c), parts.last(), c);
        lemma_count_char_push(joined(init, c), c, c);
        lemma_count_char_absent(parts.last(), c);
    }
}

proof fn lemma_count_concat(a: Seq<char>, b: Seq<char>, c: char)
    ensures
        count_char(a + b, c) == count_char(a, c) + count_char(b, c),
    decreases b.len(),
{
    if b.len() == 0 {
        assert(a + b =~= a);
    } else {
        lemma_count_concat(a, b.drop_last(), c);
        assert((a + b).drop_last() =~= a + b.drop_last());
    }
}

} // verus!
