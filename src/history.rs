//! The history file, in the format rustyline writes: a `#V2` line, then
//! one entry per line with newlines and backslashes escaped. Reading skips
//! empty lines, and a file without the `#V2` line is read line by line as
//! it stands.
use vstd::prelude::*;

verus! {

/// The text of each entry.
pub open spec fn texts(v: Seq<String>) -> Seq<Seq<char>> {
    v.map_values(|e: String| e@)
}

/// No entry holds a newline.
pub open spec fn single_lines(h: Seq<Seq<char>>) -> bool {
    forall|i: int, j: int| 0 <= i < h.len() && 0 <= j < h[i].len() ==> h[i][j] != '\n'
}

/// The lines of `h` joined: each followed by a newline.
pub open spec fn join_lines(h: Seq<Seq<char>>) -> Seq<char>
    decreases h.len(),
{
    if h.len() == 0 {
        Seq::empty()
    } else {
        h[0] + seq!['\n'] + join_lines(h.subrange(1, h.len() as int))
    }
}

/// The entries of `t`, where `cur` is the part of the current line already
/// read: a newline ends an entry, and text after the last newline is one
/// more entry.
pub open spec fn parse_from(t: Seq<char>, cur: Seq<char>) -> Seq<Seq<char>>
    decreases t.len(),
{
    if t.len() == 0 {
        if cur.len() == 0 {
            Seq::empty()
        } else {
            seq![cur]
        }
    } else if t[0] == '\n' {
        seq![cur] + parse_from(t.subrange(1, t.len() as int), Seq::empty())
    } else {
        parse_from(t.subrange(1, t.len() as int), cur.push(t[0]))
    }
}

proof fn lemma_parse_line(e: Seq<char>, rest: Seq<char>, cur: Seq<char>)
    requires
        forall|j: int| 0 <= j < e.len() ==> e[j] != '\n',
    ensures
        parse_from(e + seq!['\n'] + rest, cur) == seq![cur + e] + parse_from(rest, Seq::empty()),
    decreases e.len(),
{
    let t = e + seq!['\n'] + rest;
    if e.len() == 0 {
        assert(t.subrange(1, t.len() as int) =~= rest);
        assert(cur + e =~= cur);
    } else {
        let e1 = e.subrange(1, e.len() as int);
        assert(t.subrange(1, t.len() as int) =~= e1 + seq!['\n'] + rest);
        lemma_parse_line(e1, rest, cur.push(e[0]));
        assert(cur.push(e[0]) + e1 =~= cur + e);
    }
}

proof fn lemma_split_join(h: Seq<Seq<char>>)
    requires
        single_lines(h),
    ensures
        parse_from(join_lines(h), Seq::empty()) == h,
    decreases h.len(),
{
    if h.len() == 0 {
    } else {
        let tail = h.subrange(1, h.len() as int);
        assert(single_lines(tail)) by {
            assert forall|i: int, j: int| 0 <= i < tail.len() && 0 <= j < tail[i].len() implies tail[i][j]
                != '\n' by {
                assert(tail[i] == h[i + 1]);
            }
        }
        assert forall|j: int| 0 <= j < h[0].len() implies h[0][j] != '\n' by {}
        lemma_parse_line(h[0], join_lines(tail), Seq::empty());
        lemma_split_join(tail);
        assert(Seq::<char>::empty() + h[0] =~= h[0]);
        assert(seq![h[0]] + tail =~= h);
    }
}

/// The text of `a + b` is the text of `a` followed by that of `b`.
pub proof fn lemma_join_append(a: Seq<Seq<char>>, b: Seq<Seq<char>>)
    ensures
        join_lines(a + b) == join_lines(a) + join_lines(b),
    decreases a.len(),
{
    if a.len() == 0 {
        assert(a + b =~= b);
        assert(Seq::<char>::empty() + join_lines(b) =~= join_lines(b));
    } else {
        let at = a.subrange(1, a.len() as int);
        assert((a + b).subrange(1, (a + b).len() as int) =~= at + b);
        lemma_join_append(at, b);
        assert(a[0] + seq!['\n'] + (join_lines(at) + join_lines(b)) =~= (a[0] + seq!['\n']
            + join_lines(at)) + join_lines(b));
    }
}

/// The lines of `t`: a newline ends a line, and text after the last
/// newline is one more line.
pub open spec fn split_lines(t: Seq<char>) -> Seq<Seq<char>> {
    parse_from(t, Seq::empty())
}

/// The escaped form of one character.
pub open spec fn escape_char(c: char) -> Seq<char> {
    if c == '\n' {
        seq!['\\', 'n']
    } else if c == '\\' {
        seq!['\\', '\\']
    } else {
        seq![c]
    }
}

/// An entry as it is written: each newline as `\n`, each backslash as `\\`.
pub open spec fn escape(e: Seq<char>) -> Seq<char>
    decreases e.len(),
{
    if e.len() == 0 {
        Seq::empty()
    } else {
        escape_char(e[0]) + escape(e.subrange(1, e.len() as int))
    }
}

/// `c` put in front of an optional text.
pub open spec fn cons_opt(c: char, o: Option<Seq<char>>) -> Option<Seq<char>> {
    match o {
        Some(u) => Some(seq![c] + u),
        None => None,
    }
}

/// A written line with its escapes undone, or `None` where a backslash is
/// followed by anything but `n` or a backslash.
pub open spec fn unescape(l: Seq<char>) -> Option<Seq<char>>
    decreases l.len(),
{
    if l.len() == 0 {
        Some(Seq::empty())
    } else if l[0] == '\\' {
        if l.len() >= 2 && l[1] == 'n' {
            cons_opt('\n', unescape(l.subrange(2, l.len() as int)))
        } else if l.len() >= 2 && l[1] == '\\' {
            cons_opt('\\', unescape(l.subrange(2, l.len() as int)))
        } else {
            None
        }
    } else {
        cons_opt(l[0], unescape(l.subrange(1, l.len() as int)))
    }
}

/// A written line read back: unescaped, or as it stands where its escapes
/// are malformed.
pub open spec fn decode(l: Seq<char>) -> Seq<char> {
    match unescape(l) {
        Some(u) => u,
        None => l,
    }
}

/// The entries that the lines `ls` hold: empty lines are skipped, and in a
/// file with the `#V2` line (`v2`) each line is decoded.
pub open spec fn keep(ls: Seq<Seq<char>>, v2: bool) -> Seq<Seq<char>>
    decreases ls.len(),
{
    if ls.len() == 0 {
        Seq::empty()
    } else if ls[0].len() == 0 {
        keep(ls.subrange(1, ls.len() as int), v2)
    } else {
        seq![
            if v2 {
                decode(ls[0])
            } else {
                ls[0]
            },
        ] + keep(ls.subrange(1, ls.len() as int), v2)
    }
}

pub open spec fn version_line() -> Seq<char> {
    "#V2"@
}

/// The entries of a history file's text.
pub open spec fn parse(t: Seq<char>) -> Seq<Seq<char>> {
    let ls = split_lines(t);
    if ls.len() > 0 && ls[0] == version_line() {
        keep(ls.subrange(1, ls.len() as int), true)
    } else {
        keep(ls, false)
    }
}

/// The escaped form of each entry.
pub open spec fn escape_all(h: Seq<Seq<char>>) -> Seq<Seq<char>> {
    h.map_values(|e: Seq<char>| escape(e))
}

/// The file text for the entries `h`.
pub open spec fn serialize(h: Seq<Seq<char>>) -> Seq<char> {
    version_line() + seq!['\n'] + join_lines(escape_all(h))
}

/// No entry is empty.
pub open spec fn non_empty(h: Seq<Seq<char>>) -> bool {
    forall|i: int| 0 <= i < h.len() ==> (#[trigger] h[i]).len() > 0
}

proof fn lemma_escape_no_newline(e: Seq<char>)
    ensures
        forall|j: int| 0 <= j < escape(e).len() ==> escape(e)[j] != '\n',
    decreases e.len(),
{
    if e.len() > 0 {
        let r = e.subrange(1, e.len() as int);
        lemma_escape_no_newline(r);
        let x = escape(e);
        let c = escape_char(e[0]);
        assert(x == c + escape(r));
        assert forall|j: int| 0 <= j < x.len() implies x[j] != '\n' by {
            if j >= c.len() {
                assert(x[j] == escape(r)[j - c.len()]);
            }
        }
    }
}

proof fn lemma_unescape_escape(e: Seq<char>)
    ensures
        unescape(escape(e)) == Some(e),
    decreases e.len(),
{
    if e.len() > 0 {
        let r = e.subrange(1, e.len() as int);
        lemma_unescape_escape(r);
        let x = escape(e);
        let c = escape_char(e[0]);
        assert(x == c + escape(r));
        if e[0] == '\n' || e[0] == '\\' {
            assert(x.subrange(2, x.len() as int) =~= escape(r));
        } else {
            assert(x.subrange(1, x.len() as int) =~= escape(r));
        }
        assert(seq![e[0]] + r =~= e);
    }
}

proof fn lemma_decode_non_empty(l: Seq<char>)
    requires
        l.len() > 0,
    ensures
        decode(l).len() > 0,
{
    if l[0] == '\\' {
        if l.len() >= 2 && (l[1] == 'n' || l[1] == '\\') {
            let t = unescape(l.subrange(2, l.len() as int));
            if t is Some {
                assert((seq![l[0]] + t->0).len() > 0);
            }
        }
    } else {
        let t = unescape(l.subrange(1, l.len() as int));
        if t is Some {
            assert((seq![l[0]] + t->0).len() > 0);
        }
    }
}

proof fn lemma_keep_non_empty(ls: Seq<Seq<char>>, v2: bool)
    ensures
        non_empty(keep(ls, v2)),
    decreases ls.len(),
{
    if ls.len() > 0 {
        let rest = ls.subrange(1, ls.len() as int);
        lemma_keep_non_empty(rest, v2);
        if ls[0].len() > 0 {
            if v2 {
                lemma_decode_non_empty(ls[0]);
            }
            let k = keep(ls, v2);
            assert forall|i: int| 0 <= i < k.len() implies (#[trigger] k[i]).len() > 0 by {
                if i > 0 {
                    assert(k[i] == keep(rest, v2)[i - 1]);
                }
            }
        }
    }
}

/// No entry read from a file is empty.
pub proof fn lemma_parse_non_empty(t: Seq<char>)
    ensures
        non_empty(parse(t)),
{
    let ls = split_lines(t);
    lemma_keep_non_empty(ls, false);
    if ls.len() > 0 {
        lemma_keep_non_empty(ls.subrange(1, ls.len() as int), true);
    }
}

proof fn lemma_keep_escaped(h: Seq<Seq<char>>)
    requires
        non_empty(h),
    ensures
        keep(escape_all(h), true) == h,
    decreases h.len(),
{
    if h.len() > 0 {
        let r = h.subrange(1, h.len() as int);
        assert(non_empty(r)) by {
            assert forall|i: int| 0 <= i < r.len() implies (#[trigger] r[i]).len() > 0 by {
                assert(r[i] == h[i + 1]);
            }
        }
        lemma_keep_escaped(r);
        let x = escape_all(h);
        assert(x.subrange(1, x.len() as int) =~= escape_all(r));
        assert(h[0].len() > 0);
        assert(x[0] == escape(h[0]));
        assert(escape(h[0]).len() > 0);
        lemma_unescape_escape(h[0]);
        assert(seq![h[0]] + r =~= h);
    }
}

/// Reading back what was written gives the same entries, as long as none
/// of them is empty.
pub proof fn lemma_parse_serialize(h: Seq<Seq<char>>)
    requires
        non_empty(h),
    ensures
        parse(serialize(h)) == h,
{
    reveal_strlit("#V2");
    let x = escape_all(h);
    assert(single_lines(x)) by {
        assert forall|i: int, j: int| 0 <= i < x.len() && 0 <= j < x[i].len() implies x[i][j]
            != '\n' by {
            lemma_escape_no_newline(h[i]);
        }
    }
    lemma_split_join(x);
    assert(forall|j: int| 0 <= j < version_line().len() ==> version_line()[j] != '\n');
    lemma_parse_line(version_line(), join_lines(x), Seq::empty());
    assert(Seq::<char>::empty() + version_line() =~= version_line());
    let ls = split_lines(serialize(h));
    assert(ls == seq![version_line()] + x);
    assert(ls.subrange(1, ls.len() as int) =~= x);
    lemma_keep_escaped(h);
}

/// A session that started from the file text `file` and added the lines
/// `added` writes a file that reads back as the old entries followed by the
/// new ones, in the order they were entered.
pub proof fn lemma_history_kept(file: Seq<char>, added: Seq<Seq<char>>)
    requires
        non_empty(added),
    ensures
        parse(serialize(parse(file) + added)) == parse(file) + added,
{
    let all = parse(file) + added;
    lemma_parse_non_empty(file);
    assert forall|i: int| 0 <= i < all.len() implies (#[trigger] all[i]).len() > 0 by {
        if i >= parse(file).len() {
            assert(all[i] == added[i - parse(file).len()]);
        } else {
            assert(all[i] == parse(file)[i]);
        }
    }
    lemma_parse_serialize(all);
}

/// `p` put in front of an optional text.
pub open spec fn prefix_opt(p: Seq<char>, o: Option<Seq<char>>) -> Option<Seq<char>> {
    match o {
        Some(u) => Some(p + u),
        None => None,
    }
}

/// The lines of `text` (see `split_lines`).
fn split_lines_of(text: &str) -> (r: Vec<String>)
    ensures
        texts(r@) == split_lines(text@),
{
    let n = text.unicode_len();
    let mut out: Vec<String> = Vec::new();
    let mut cur = String::new();
    let mut i: usize = 0;
    assert(text@.subrange(0, n as int) =~= text@);
    assert(texts(out@) + split_lines(text@) =~= split_lines(text@));
    while i < n
        invariant
            n == text@.len(),
            i <= n,
            texts(out@) + parse_from(text@.subrange(i as int, n as int), cur@) == split_lines(
                text@,
            ),
        decreases n - i,
    {
        let ghost rest = text@.subrange(i as int, n as int);
        let ghost before = texts(out@);
        assert(rest.subrange(1, rest.len() as int) =~= text@.subrange(i + 1, n as int));
        let c = text.get_char(i);
        if c == '\n' {
            let ghost line = cur@;
            out.push(cur);
            cur = String::new();
            assert(texts(out@) =~= before.push(line));
            let ghost tail = parse_from(text@.subrange(i + 1, n as int), Seq::empty());
            assert(before + (seq![line] + tail) =~= before.push(line) + tail);
        } else {
            let one = text.substring_char(i, i + 1);
            assert(one@ =~= seq![c]);
            let ghost old_cur = cur@;
            cur.append(one);
            assert(cur@ =~= old_cur.push(c));
        }
        i = i + 1;
    }
    let ghost before = texts(out@);
    if cur.unicode_len() > 0 {
        let ghost line = cur@;
        out.push(cur);
        assert(texts(out@) =~= before.push(line));
        assert(before + seq![line] =~= before.push(line));
    } else {
        assert(before + Seq::<Seq<char>>::empty() =~= before);
    }
    out
}

/// An entry in its written form (see `escape`).
pub fn escape_entry(e: &str) -> (r: String)
    ensures
        r@ == escape(e@),
{
    let n = e.unicode_len();
    let mut r = String::new();
    let mut i: usize = 0;
    proof {
        reveal_strlit("\\n");
        reveal_strlit("\\\\");
    }
    assert("\\n"@ =~= seq!['\\', 'n']);
    assert("\\\\"@ =~= seq!['\\', '\\']);
    assert(e@.subrange(0, n as int) =~= e@);
    assert(r@ + escape(e@) =~= escape(e@));
    while i < n
        invariant
            n == e@.len(),
            i <= n,
            "\\n"@ =~= seq!['\\', 'n'],
            "\\\\"@ =~= seq!['\\', '\\'],
            r@ + escape(e@.subrange(i as int, n as int)) == escape(e@),
        decreases n - i,
    {
        let ghost rest = e@.subrange(i as int, n as int);
        let ghost before = r@;
        assert(rest.subrange(1, rest.len() as int) =~= e@.subrange(i + 1, n as int));
        let c = e.get_char(i);
        if c == '\n' {
            r.append("\\n");
        } else if c == '\\' {
            r.append("\\\\");
        } else {
            let one = e.substring_char(i, i + 1);
            assert(one@ =~= seq![c]);
            r.append(one);
        }
        assert(r@ =~= before + escape_char(c));
        let ghost tail = escape(e@.subrange(i + 1, n as int));
        assert(before + (escape_char(c) + tail) =~= (before + escape_char(c)) + tail);
        i = i + 1;
    }
    assert(e@.subrange(n as int, n as int) =~= Seq::<char>::empty());
    assert(r@ + Seq::<char>::empty() =~= r@);
    r
}

/// A written line with its escapes undone (see `unescape`).
fn unescape_line(l: &str) -> (r: Option<String>)
    ensures
        r is Some <==> unescape(l@) is Some,
        r matches Some(u) ==> unescape(l@) == Some(u@),
{
    let n = l.unicode_len();
    let mut r = String::new();
    let mut i: usize = 0;
    proof {
        reveal_strlit("\n");
        reveal_strlit("\\");
    }
    assert("\n"@ =~= seq!['\n']);
    assert("\\"@ =~= seq!['\\']);
    assert(l@.subrange(0, n as int) =~= l@);
    assert(prefix_opt(r@, unescape(l@)) =~~= unescape(l@)) by {
        if unescape(l@) is Some {
            assert(r@ + unescape(l@)->0 =~= unescape(l@)->0);
        }
    }
    while i < n
        invariant
            n == l@.len(),
            i <= n,
            "\n"@ =~= seq!['\n'],
            "\\"@ =~= seq!['\\'],
            prefix_opt(r@, unescape(l@.subrange(i as int, n as int))) == unescape(l@),
        decreases n - i,
    {
        let ghost rest = l@.subrange(i as int, n as int);
        let ghost before = r@;
        let c = l.get_char(i);
        if c == '\\' {
            if i + 1 < n {
                let d = l.get_char(i + 1);
                assert(rest.subrange(2, rest.len() as int) =~= l@.subrange(i + 2, n as int));
                if d == 'n' {
                    r.append("\n");
                } else if d == '\\' {
                    r.append("\\");
                } else {
                    return None;
                }
                let ghost k = if d == 'n' {
                    '\n'
                } else {
                    '\\'
                };
                assert(r@ =~= before.push(k));
                let ghost t = unescape(l@.subrange(i + 2, n as int));
                assert(prefix_opt(before, cons_opt(k, t)) == prefix_opt(r@, t)) by {
                    if t is Some {
                        assert(before + (seq![k] + t->0) =~= r@ + t->0);
                    }
                }
                i = i + 2;
            } else {
                return None;
            }
        } else {
            assert(rest.subrange(1, rest.len() as int) =~= l@.subrange(i + 1, n as int));
            let one = l.substring_char(i, i + 1);
            assert(one@ =~= seq![c]);
            r.append(one);
            let ghost t = unescape(l@.subrange(i + 1, n as int));
            assert(prefix_opt(before, cons_opt(c, t)) == prefix_opt(r@, t)) by {
                if t is Some {
                    assert(before + (seq![c] + t->0) =~= r@ + t->0);
                }
            }
            i = i + 1;
        }
    }
    assert(l@.subrange(n as int, n as int) =~= Seq::<char>::empty());
    assert(r@ + Seq::<char>::empty() =~= r@);
    Some(r)
}

/// A written line read back (see `decode`).
pub fn decode_line(l: &str) -> (r: String)
    ensures
        r@ == decode(l@),
{
    match unescape_line(l) {
        Some(u) => u,
        None => String::from_str(l),
    }
}

/// The entries of a history file's text (see `parse`).
pub fn parse_history(text: &str) -> (r: Vec<String>)
    ensures
        texts(r@) == parse(text@),
{
    let ls = split_lines_of(text);
    let n = ls.len();
    proof {
        reveal_strlit("#V2");
    }
    let v2 = n > 0 && ls[0].unicode_len() == 3 && ls[0].as_str().get_char(0) == '#'
        && ls[0].as_str().get_char(1) == 'V' && ls[0].as_str().get_char(2) == '2';
    let ghost all = texts(ls@);
    if n > 0 {
        assert(all[0] == ls@[0]@);
        if v2 {
            assert(all[0] =~= version_line());
        } else if ls[0].unicode_len() == 3 {
            assert(all[0] != version_line()) by {
                if all[0] == version_line() {
                    assert(version_line()[0] == '#' && version_line()[1] == 'V'
                        && version_line()[2] == '2');
                }
            }
        }
    }
    let start: usize = if v2 {
        1
    } else {
        0
    };
    assert(all.subrange(0, n as int) =~= all);
    let mut out: Vec<String> = Vec::new();
    let mut i: usize = start;
    assert(texts(out@) + keep(all.subrange(start as int, n as int), v2) =~= parse(text@));
    while i < n
        invariant
            n == ls@.len(),
            all == texts(ls@),
            start <= i <= n,
            texts(out@) + keep(all.subrange(i as int, n as int), v2) == parse(text@),
        decreases n - i,
    {
        let ghost rest = all.subrange(i as int, n as int);
        let ghost before = texts(out@);
        assert(rest.subrange(1, rest.len() as int) =~= all.subrange(i + 1, n as int));
        assert(rest[0] == ls@[i as int]@);
        let line = ls[i].as_str();
        if line.unicode_len() > 0 {
            let entry = if v2 {
                decode_line(line)
            } else {
                String::from_str(line)
            };
            let ghost ev = entry@;
            out.push(entry);
            assert(texts(out@) =~= before.push(ev));
            let ghost tail = keep(all.subrange(i + 1, n as int), v2);
            assert(before + (seq![ev] + tail) =~= before.push(ev) + tail);
        }
        i = i + 1;
    }
    assert(all.subrange(n as int, n as int) =~= Seq::<Seq<char>>::empty());
    assert(texts(out@) + Seq::<Seq<char>>::empty() =~= texts(out@));
    out
}

/// The file text for the entries (see `serialize`).
pub fn serialize_history(entries: &Vec<String>) -> (r: String)
    ensures
        r@ == serialize(texts(entries@)),
{
    let n = entries.len();
    let mut r = String::from_str("#V2\n");
    let mut i: usize = 0;
    proof {
        reveal_strlit("#V2\n");
        reveal_strlit("#V2");
        reveal_strlit("\n");
        assert(r@ =~= version_line() + seq!['\n']);
        assert(escape_all(texts(entries@).subrange(0, 0)) =~= Seq::<Seq<char>>::empty());
        assert(r@ + join_lines(Seq::<Seq<char>>::empty()) =~= r@);
    }
    while i < n
        invariant
            n == entries@.len(),
            i <= n,
            "\n"@ =~= seq!['\n'],
            r@ == version_line() + seq!['\n'] + join_lines(
                escape_all(texts(entries@).subrange(0, i as int)),
            ),
        decreases n - i,
    {
        let ghost done = escape_all(texts(entries@).subrange(0, i as int));
        let ghost before = r@;
        let esc = escape_entry(entries[i].as_str());
        let ghost x = esc@;
        r.append(esc.as_str());
        r.append("\n");
        proof {
            let one = seq![x];
            assert(one.subrange(1, 1) =~= Seq::<Seq<char>>::empty());
            assert(join_lines(one.subrange(1, 1)) == Seq::<char>::empty());
            assert(join_lines(one) =~= x + seq!['\n']);
            lemma_join_append(done, one);
            assert(escape_all(texts(entries@).subrange(0, i + 1)) =~= done + one);
            assert(r@ =~= version_line() + seq!['\n'] + (join_lines(done) + join_lines(one)));
        }
        i = i + 1;
    }
    assert(texts(entries@).subrange(0, n as int) =~= texts(entries@));
    r
}

} // verus!
