//! Unix file paths as byte sequences.

use vstd::prelude::*;
use vstd::string::*;
use vstd::utf8::*;

verus! {

/// A Unix path: any bytes, with `/` between components.
pub struct FilePath {
    pub bytes: Vec<u8>,
}

impl View for FilePath {
    type V = Seq<u8>;

    open spec fn view(&self) -> Seq<u8> {
        self.bytes@
    }
}

/// The byte of `/`.
pub const SLASH: u8 = 47;

/// The byte of `.`.
pub const DOT: u8 = 46;

/// Whether a path starts at the root.
pub open spec fn is_absolute(p: Seq<u8>) -> bool {
    p.len() > 0 && p[0] == SLASH
}

/// `path` taken relative to `base`: an absolute path stands for itself, and a
/// separator is put behind a base that lacks one.
pub open spec fn joined(base: Seq<u8>, path: Seq<u8>) -> Seq<u8> {
    if is_absolute(path) {
        path
    } else if base.len() == 0 || base.last() == SLASH {
        base + path
    } else {
        base.push(SLASH) + path
    }
}

/// Whether a path starts with a `.` component.
pub open spec fn starts_at_dot(p: Seq<u8>) -> bool {
    p.len() > 0 && p[0] == DOT && (p.len() == 1 || p[1] == SLASH)
}

/// Where the components behind a leading `/` or `.` start.
pub open spec fn body_start(p: Seq<u8>) -> nat {
    if is_absolute(p) || starts_at_dot(p) {
        1
    } else {
        0
    }
}

/// Where the last component of the body starts.
pub open spec fn last_start(p: Seq<u8>, start: nat) -> int
    decreases p.len(),
{
    if p.len() <= start {
        start as int
    } else if p.last() == SLASH {
        p.len() as int
    } else {
        last_start(p.drop_last(), start)
    }
}

/// The path in front of the last component of the body.
pub open spec fn without_last(p: Seq<u8>, start: nat) -> Seq<u8> {
    let at = last_start(p, start);
    if at > start {
        p.take(at - 1)
    } else {
        p.take(start as int)
    }
}

/// Whether the last component of the body counts for nothing: empty or `.`.
pub open spec fn ends_idle(p: Seq<u8>, start: nat) -> bool {
    let last = p.skip(last_start(p, start));
    last.len() == 0 || last == seq![DOT]
}

/// The last component of the body holds no separator, and one stands in front of it
/// unless it is the only one.
pub proof fn lemma_last_start(p: Seq<u8>, start: nat)
    requires
        start <= p.len(),
    ensures
        start <= last_start(p, start) <= p.len(),
        last_start(p, start) > start ==> p[last_start(p, start) - 1] == SLASH,
        forall|j: int| last_start(p, start) <= j < p.len() ==> p[j] != SLASH,
    decreases p.len(),
{
    if p.len() > start && p.last() != SLASH {
        lemma_last_start(p.drop_last(), start);
        assert forall|j: int| last_start(p, start) <= j < p.len() implies p[j] != SLASH by {
            if j < p.len() - 1 {
                assert(p.drop_last()[j] == p[j]);
            }
        }
    }
}

/// A path without the components at its end that count for nothing.
pub open spec fn trimmed(p: Seq<u8>, start: nat) -> Seq<u8>
    decreases p.len(),
{
    if p.len() > start && ends_idle(p, start) {
        proof {
            lemma_last_start(p, start);
        }
        trimmed(without_last(p, start), start)
    } else {
        p
    }
}

/// The directory of a path: the path without its last component. The root and the
/// empty path have none.
pub open spec fn parent(p: Seq<u8>) -> Option<Seq<u8>> {
    let start = body_start(p);
    let path = trimmed(p, start);
    if path.len() > start {
        Some(trimmed(without_last(path, start), start))
    } else if starts_at_dot(p) {
        Some(Seq::empty())
    } else {
        None
    }
}

/// What stands before, between and behind the separators of a path.
pub open spec fn pieces(p: Seq<u8>) -> Seq<Seq<u8>>
    decreases p.len(),
{
    if p.len() == 0 {
        seq![Seq::empty()]
    } else {
        let before = pieces(p.drop_last());
        if p.last() == SLASH {
            before.push(Seq::empty())
        } else {
            before.drop_last().push(before.last().push(p.last()))
        }
    }
}

/// The pieces that name something: those that are neither empty nor `.`.
pub open spec fn names(p: Seq<u8>) -> Seq<Seq<u8>> {
    pieces(p).filter(|piece: Seq<u8>| piece.len() > 0 && piece != seq![DOT])
}

/// The components of a path: the root or a leading `.`, and behind it the names.
pub open spec fn components(p: Seq<u8>) -> Seq<Seq<u8>> {
    if is_absolute(p) {
        seq![seq![SLASH]] + names(p)
    } else if starts_at_dot(p) {
        seq![seq![DOT]] + names(p)
    } else {
        names(p)
    }
}

/// The directory that relative paths in the file at `p` are taken from.
pub open spec fn base_dir(p: Seq<u8>) -> Seq<u8> {
    match parent(p) {
        Some(dir) => if dir.len() == 0 {
            seq![DOT]
        } else {
            dir
        },
        None => seq![DOT],
    }
}

/// The bytes of `.tmp`.
pub open spec fn temp_suffix() -> Seq<u8> {
    seq![46u8, 116u8, 109u8, 112u8]
}

fn last_component_start(p: &Vec<u8>, len: usize, start: usize) -> (r: usize)
    requires
        start <= len <= p@.len(),
    ensures
        r == last_start(p@.take(len as int), start as nat),
        start <= r <= len,
{
    let mut i: usize = len;
    assert(p@.take(i as int) =~= p@.take(len as int));
    while i > start && p[i - 1] != SLASH
        invariant
            start <= i <= len <= p@.len(),
            last_start(p@.take(i as int), start as nat) == last_start(
                p@.take(len as int),
                start as nat,
            ),
        decreases i,
    {
        assert(p@.take(i as int).drop_last() =~= p@.take(i - 1));
        i = i - 1;
    }
    i
}

/// The length of a path without the components at its end that count for nothing.
fn trimmed_len(p: &Vec<u8>, len: usize, start: usize) -> (r: usize)
    requires
        start <= len <= p@.len(),
    ensures
        start <= r <= len,
        p@.take(r as int) == trimmed(p@.take(len as int), start as nat),
{
    let mut n: usize = len;
    while n > start
        invariant
            start <= n <= len <= p@.len(),
            trimmed(p@.take(n as int), start as nat) == trimmed(p@.take(len as int), start as nat),
        ensures
            start <= n <= len,
            p@.take(n as int) == trimmed(p@.take(len as int), start as nat),
        decreases n,
    {
        let ghost path = p@.take(n as int);
        let at: usize = last_component_start(p, n, start);
        let idle: bool = at == n || (n - at == 1 && p[at] == DOT);
        proof {
            let last = path.skip(at as int);
            assert(last.len() == n - at);
            if n - at == 1 && p@[at as int] == DOT {
                assert(last =~= seq![DOT]);
            }
            if last == seq![DOT] {
                assert(last[0] == p@[at as int]);
            }
            assert(idle == ends_idle(path, start as nat));
        }
        if !idle {
            break;
        }
        let next: usize = if at > start {
            at - 1
        } else {
            start
        };
        assert(without_last(path, start as nat) =~= p@.take(next as int));
        n = next;
    }
    n
}

fn prefix(p: &Vec<u8>, len: usize) -> (r: Vec<u8>)
    requires
        len <= p@.len(),
    ensures
        r@ == p@.take(len as int),
{
    let mut r: Vec<u8> = Vec::new();
    let mut i: usize = 0;
    while i < len
        invariant
            i <= len <= p@.len(),
            r@ == p@.take(i as int),
        decreases len - i,
    {
        r.push(p[i]);
        i = i + 1;
    }
    r
}

fn append_bytes(r: &mut Vec<u8>, more: &Vec<u8>)
    ensures
        final(r)@ == old(r)@ + more@,
{
    let mut i: usize = 0;
    assert(r@ + more@.take(0) =~= r@);
    while i < more.len()
        invariant
            i <= more@.len(),
            r@ == old(r)@ + more@.take(i as int),
        decreases more@.len() - i,
    {
        r.push(more[i]);
        assert(r@ =~= old(r)@ + more@.take(i + 1));
        i = i + 1;
    }
    assert(more@.take(i as int) =~= more@);
}

impl FilePath {
    /// A copy of the path.
    pub fn copy(&self) -> (r: FilePath)
        ensures
            r@ == self@,
    {
        let bytes: Vec<u8> = prefix(&self.bytes, self.bytes.len());
        assert(bytes@ =~= self.bytes@);
        FilePath { bytes }
    }

    /// Whether the path starts at the root.
    pub fn is_absolute(&self) -> (r: bool)
        ensures
            r == is_absolute(self@),
    {
        self.bytes.len() > 0 && self.bytes[0] == SLASH
    }

    /// `path` taken relative to this path.
    pub fn join(&self, path: &FilePath) -> (r: FilePath)
        ensures
            r@ == joined(self@, path@),
    {
        if path.is_absolute() {
            path.copy()
        } else {
            let mut r: FilePath = self.copy();
            if r.bytes.len() > 0 && r.bytes[r.bytes.len() - 1] != SLASH {
                r.bytes.push(SLASH);
            }
            append_bytes(&mut r.bytes, &path.bytes);
            r
        }
    }

    /// The path as text, with a replacement character for what is not UTF-8.
    pub fn display(&self) -> (r: String)
        ensures
            r@ == lossy_text(self@),
            valid_utf8(self@) ==> r@ == decode_utf8(self@),
    {
        lossy(self.bytes.as_slice())
    }

    /// The directory of the path.
    pub fn parent(&self) -> (r: Option<FilePath>)
        ensures
            parent(self@) == (match r {
                Some(dir) => Some(dir@),
                None => None,
            }),
    {
        let n: usize = self.bytes.len();
        let at_dot: bool = n > 0 && self.bytes[0] == DOT && (n == 1 || self.bytes[1] == SLASH);
        let start: usize = if self.is_absolute() || at_dot {
            1
        } else {
            0
        };
        assert(self@.take(n as int) =~= self@);
        let len: usize = trimmed_len(&self.bytes, n, start);
        if len > start {
            let at: usize = last_component_start(&self.bytes, len, start);
            let cut: usize = if at > start {
                at - 1
            } else {
                start
            };
            assert(without_last(self@.take(len as int), start as nat) =~= self@.take(cut as int));
            let dir: usize = trimmed_len(&self.bytes, cut, start);
            Some(FilePath { bytes: prefix(&self.bytes, dir) })
        } else if at_dot {
            Some(FilePath { bytes: Vec::new() })
        } else {
            None
        }
    }
}

/// The path that a file is first written to: the path with `.tmp` behind it.
pub fn temp_path(path: &FilePath) -> (r: FilePath)
    ensures
        r@ == path@ + temp_suffix(),
        r.bytes@ == path.bytes@ + seq![46u8, 116u8, 109u8, 112u8],
{
    let mut r: FilePath = path.copy();
    r.bytes.push(46);
    r.bytes.push(116);
    r.bytes.push(109);
    r.bytes.push(112);
    assert(r@ =~= path@ + temp_suffix());
    r
}

/// How a file is written: its directory is created, the content goes to a temporary
/// file, and that file is moved to its place.
pub struct WritePlan {
    pub create_dir: Option<FilePath>,
    pub temp: FilePath,
    pub target: FilePath,
}

/// Plans the writing of the file at `path`.
pub fn write_plan(path: &FilePath) -> (r: WritePlan)
    ensures
        parent(path@) == (match r.create_dir {
            Some(dir) => Some(dir@),
            None => None,
        }),
        r.temp@ == path@ + temp_suffix(),
        r.target@ == path@,
        r.temp.bytes@ == path.bytes@ + seq![46u8, 116u8, 109u8, 112u8],
        r.target.bytes@ == path.bytes@,
{
    WritePlan { create_dir: path.parent(), temp: temp_path(path), target: path.copy() }
}

/// The directory that relative paths in the configuration at `path` are taken from.
pub fn config_base_dir(path: &FilePath) -> (r: FilePath)
    ensures
        r@ == base_dir(path@),
{
    match path.parent() {
        Some(dir) => if dir.bytes.len() > 0 {
            return dir;
        },
        None => {},
    }
    let mut bytes: Vec<u8> = Vec::new();
    bytes.push(DOT);
    assert(bytes@ =~= seq![DOT]);
    FilePath { bytes }
}

/// A path of the configuration, taken relative to `base_dir` unless absolute.
pub fn resolve_config_path(base_dir: &FilePath, path: &FilePath) -> (r: FilePath)
    ensures
        r@ == joined(base_dir@, path@),
{
    if path.is_absolute() {
        path.copy()
    } else {
        base_dir.join(path)
    }
}

/// What `String::from_utf8_lossy` makes of bytes.
pub uninterp spec fn lossy_text(bytes: Seq<u8>) -> Seq<char>;

/// Calls `String::from_utf8_lossy`. The result is a function of the bytes alone; it
/// is the decoded text where the bytes are UTF-8. How much one replacement character
/// stands for elsewhere is not stated.
#[verifier::external_body]
fn lossy(bytes: &[u8]) -> (r: String)
    ensures
        r@ == lossy_text(bytes@),
        valid_utf8(bytes@) ==> r@ == decode_utf8(bytes@),
{
    String::from_utf8_lossy(bytes).into_owned()
}

/// The piece behind a separator that is the last stands behind the other pieces.
proof fn lemma_last_piece(p: Seq<u8>, at: int)
    requires
        0 < at <= p.len(),
        p[at - 1] == SLASH,
        forall|j: int| at <= j < p.len() ==> p[j] != SLASH,
    ensures
        pieces(p) == pieces(p.take(at - 1)).push(p.skip(at)),
    decreases p.len(),
{
    if p.len() == at {
        assert(p.drop_last() =~= p.take(at - 1));
        assert(p.skip(at) =~= Seq::<u8>::empty());
    } else {
        let shorter = p.drop_last();
        assert(p[p.len() - 1] != SLASH);
        assert forall|j: int| at <= j < shorter.len() implies shorter[j] != SLASH by {
            assert(p[j] != SLASH);
        }
        lemma_last_piece(shorter, at);
        assert(shorter.take(at - 1) =~= p.take(at - 1));
        assert(shorter.skip(at).push(p.last()) =~= p.skip(at));
        assert(pieces(shorter).drop_last() =~= pieces(p.take(at - 1)));
    }
}

/// A path without a separator is one piece.
proof fn lemma_single_piece(p: Seq<u8>)
    requires
        forall|j: int| 0 <= j < p.len() ==> p[j] != SLASH,
    ensures
        pieces(p) == seq![p],
    decreases p.len(),
{
    if p.len() == 0 {
        assert(p =~= Seq::<u8>::empty());
    } else {
        let shorter = p.drop_last();
        assert forall|j: int| 0 <= j < shorter.len() implies shorter[j] != SLASH by {
            assert(p[j] != SLASH);
        }
        lemma_single_piece(shorter);
        assert(p[p.len() - 1] != SLASH);
        assert(shorter.push(p.last()) =~= p);
        assert(pieces(p) =~= seq![p]);
    }
}

/// The empty path, the root and `.` have no names.
proof fn lemma_no_names(p: Seq<u8>)
    requires
        p.len() == body_start(p),
    ensures
        names(p) == Seq::<Seq<u8>>::empty(),
{
    reveal_with_fuel(Seq::filter, 3);
    if p.len() == 0 {
        lemma_single_piece(p);
        assert(pieces(p).drop_last() =~= Seq::<Seq<u8>>::empty());
    } else if is_absolute(p) {
        lemma_last_piece(p, 1);
        lemma_single_piece(p.take(0));
        assert(pieces(p).drop_last() =~= seq![p.take(0)]);
        assert(pieces(p).drop_last().drop_last() =~= Seq::<Seq<u8>>::empty());
    } else {
        lemma_single_piece(p);
        assert(p =~= seq![DOT]);
        assert(pieces(p).drop_last() =~= Seq::<Seq<u8>>::empty());
    }
}

/// What stands in front of the last component of the body starts as the path does, and
/// has its names without that of the last component.
proof fn lemma_without_last(p: Seq<u8>)
    requires
        p.len() > body_start(p),
    ensures
        ({
            let start = body_start(p);
            let rest = without_last(p, start);
            &&& start <= rest.len() < p.len()
            &&& rest == p.take(rest.len() as int)
            &&& body_start(rest) == start
            &&& names(p) == (if ends_idle(p, start) {
                names(rest)
            } else {
                names(rest).push(p.skip(last_start(p, start)))
            })
        }),
{
    let start = body_start(p);
    let at = last_start(p, start);
    let rest = without_last(p, start);
    let last = p.skip(at);
    lemma_last_start(p, start);
    assert(rest =~= p.take(rest.len() as int));
    if rest.len() > 0 {
        assert(rest[0] == p[0]);
    }
    if rest.len() > 1 {
        assert(rest[1] == p[1]);
    }
    reveal(Seq::filter);
    if at > start {
        lemma_last_piece(p, at);
        assert(pieces(p).drop_last() =~= pieces(rest));
    } else if start == 0 {
        lemma_single_piece(p);
        lemma_no_names(rest);
        assert(p.skip(0) =~= p);
        assert(pieces(p).drop_last() =~= Seq::<Seq<u8>>::empty());
    } else {
        assert(is_absolute(p)) by {
            assert(p[1] != SLASH);
        }
        lemma_no_names(rest);
        lemma_last_piece(p, 1);
        let front = p.take(0);
        lemma_single_piece(front);
        assert(pieces(p).drop_last() =~= pieces(front));
        lemma_no_names(front);
    }
    assert(pieces(p).last() == last);
}

/// A path without the idle components at its end starts as the path does and has the
/// same names.
proof fn lemma_trimmed(p: Seq<u8>)
    ensures
        ({
            let start = body_start(p);
            let path = trimmed(p, start);
            &&& start <= path.len() <= p.len()
            &&& path == p.take(path.len() as int)
            &&& body_start(path) == start
            &&& names(path) == names(p)
            &&& path.len() > start ==> !ends_idle(path, start)
        }),
    decreases p.len(),
{
    let start = body_start(p);
    if p.len() > start && ends_idle(p, start) {
        let rest = without_last(p, start);
        lemma_without_last(p);
        lemma_trimmed(rest);
        let path = trimmed(rest, start);
        assert(path =~= p.take(path.len() as int));
    } else {
        assert(p.take(p.len() as int) =~= p);
    }
}

/// The directory of a path is the front part of the path that has the components of the
/// path but the last, and ends with a component. Only a path without components and the
/// root have none.
pub proof fn law_parent_drops_the_last_component(p: Seq<u8>)
    ensures
        parent(p) is None <==> components(p).len() == 0 || components(p) == seq![seq![SLASH]],
        parent(p) matches Some(dir) ==> {
            &&& dir.is_prefix_of(p)
            &&& components(dir) == components(p).drop_last()
            &&& dir.len() > body_start(dir) ==> !ends_idle(dir, body_start(dir))
        },
{
    let start = body_start(p);
    let path = trimmed(p, start);
    lemma_trimmed(p);
    if path.len() > start {
        let rest = without_last(path, start);
        let dir = trimmed(rest, start);
        lemma_without_last(path);
        lemma_trimmed(rest);
        assert(dir =~= p.take(dir.len() as int));
        if dir.len() > 0 {
            assert(dir[0] == p[0]);
        }
        let last = path.skip(last_start(path, start));
        assert(names(p) == names(dir).push(last));
        assert(components(p).last() == last);
        assert(components(dir) =~= components(p).drop_last());
        if components(p) == seq![seq![SLASH]] {
            lemma_last_start(path, start);
            assert(last[0] == path[last_start(path, start)]);
            assert(seq![seq![SLASH]].last()[0] == SLASH);
        }
    } else {
        lemma_no_names(path);
        let none = Seq::<u8>::empty();
        lemma_no_names(none);
        if is_absolute(p) {
            assert(components(p) =~= seq![seq![SLASH]]);
        } else if starts_at_dot(p) {
            assert(components(p) =~= seq![seq![DOT]]);
            assert(components(p)[0][0] == DOT);
            assert(seq![seq![SLASH]][0][0] == SLASH);
            assert(components(none) =~= components(p).drop_last());
            assert(none.is_prefix_of(p));
        }
    }
}

/// With an absolute base every resolved path is absolute, and resolving it again,
/// from any base, leaves it as it is.
pub proof fn law_resolving_again_changes_nothing(base: Seq<u8>, path: Seq<u8>, other: Seq<u8>)
    requires
        is_absolute(base),
    ensures
        is_absolute(joined(base, path)),
        joined(other, joined(base, path)) == joined(base, path),
{
}

/// The temporary file of a path that ends in a name is another file in the same
/// directory.
pub proof fn law_temp_file_is_a_neighbour(path: Seq<u8>)
    requires
        path.len() > body_start(path),
        !ends_idle(path, body_start(path)),
    ensures
        path + temp_suffix() != path,
        parent(path + temp_suffix()) == parent(path),
{
    let start = body_start(path);
    let temp = path + temp_suffix();
    lemma_last_start(path, start);
    lemma_last_start(temp, start);
    let at = last_start(path, start);
    assert(body_start(temp) == start);
    assert(temp.len() == path.len() + 4);
    if last_start(temp, start) > at {
        let k = last_start(temp, start) - 1;
        assert(temp[k] == SLASH);
        assert(k < path.len());
        assert(path[k] != SLASH);
        assert(false);
    }
    if last_start(temp, start) < at {
        assert(temp[at - 1] == path[at - 1]);
        assert(false);
    }
    let last = temp.skip(at);
    assert(last.len() >= 4);
    assert(!ends_idle(temp, start));
    assert(without_last(temp, start) =~= without_last(path, start));
}

/// A path without a separator lies in the current directory.
pub proof fn law_bare_name_lies_in_current_directory(name: Seq<u8>)
    requires
        forall|i: int| 0 <= i < name.len() ==> name[i] != SLASH,
    ensures
        base_dir(name) == seq![DOT],
{
    if name.len() > 0 && name != seq![DOT] {
        if starts_at_dot(name) {
            assert(name =~= seq![DOT]);
        }
        lemma_last_start(name, 0);
        assert(name.skip(0) =~= name);
        assert(without_last(name, 0) =~= Seq::<u8>::empty());
    }
}

/// A name behind a directory lies in that directory, where the path of the directory is
/// not empty and is `/` or `.` or ends in a name.
pub proof fn law_name_lies_in_its_directory(dir: Seq<u8>, name: Seq<u8>)
    requires
        dir.len() > 0,
        dir.len() == body_start(dir) || !ends_idle(dir, body_start(dir)),
        name.len() > 0,
        forall|i: int| 0 <= i < name.len() ==> name[i] != SLASH,
        name != seq![DOT],
    ensures
        base_dir(joined(dir, name)) == dir,
{
    let path = joined(dir, name);
    let start = body_start(dir);
    lemma_last_start(dir, start);
    if dir.len() > start && dir.last() == SLASH {
        assert(dir.skip(dir.len() as int).len() == 0);
        assert(false);
    }
    assert(body_start(path) == start);
    lemma_last_start(path, start);
    let at = path.len() - name.len();
    assert forall|k: int| at <= k < path.len() implies path[k] != SLASH by {
        assert(path[k] == name[k - at]);
    }
    assert(at > start ==> path[at - 1] == SLASH);
    assert(path.skip(at) =~= name);
    assert(last_start(path, start) == at);
    assert(without_last(path, start) =~= dir);
}

/// A path that starts with a separator replaces the base; any other is put behind the
/// base, with one separator between them unless the base is empty or ends in one.
pub proof fn law_path_is_put_behind_its_base(base: Seq<u8>, path: Seq<u8>)
    ensures
        path.len() > 0 && path[0] == 47 ==> joined(base, path) == path,
        !(path.len() > 0 && path[0] == 47) ==> {
            &&& base.is_prefix_of(joined(base, path))
            &&& path == joined(base, path).skip(joined(base, path).len() - path.len())
            &&& joined(base, path).len() == base.len() + path.len() + (if base.len() == 0
                || base[base.len() - 1] == 47 {
                0int
            } else {
                1
            })
            &&& joined(base, path).len() > base.len() + path.len() ==> joined(
                base,
                path,
            )[base.len() as int] == 47
        },
{
    if !is_absolute(path) {
        assert(joined(base, path).skip(joined(base, path).len() - path.len()) =~= path);
    }
}

/// The paths of the configuration are taken from its directory, or from the current one
/// where the configuration has none or an empty one.
pub proof fn law_base_is_the_directory(p: Seq<u8>)
    ensures
        parent(p) matches Some(dir) ==> dir.len() > 0 ==> base_dir(p) == dir,
        parent(p) matches Some(dir) ==> dir.len() == 0 ==> base_dir(p) == seq![46u8],
        parent(p) is None ==> base_dir(p) == seq![46u8],
{
}

/// The pieces, each behind a separator but the first.
pub open spec fn glued(list: Seq<Seq<u8>>) -> Seq<u8>
    decreases list.len(),
{
    if list.len() == 0 {
        Seq::empty()
    } else if list.len() == 1 {
        list[0]
    } else {
        glued(list.drop_last()).push(47) + list.last()
    }
}

/// The pieces of a path hold no separator, and with one between each two they are the
/// path again.
pub proof fn law_pieces_make_up_the_path(p: Seq<u8>)
    ensures
        pieces(p).len() > 0,
        forall|i: int| 0 <= i < pieces(p).len() ==> !(#[trigger] pieces(p)[i]).contains(47),
        glued(pieces(p)) == p,
    decreases p.len(),
{
    if p.len() > 0 {
        let shorter = p.drop_last();
        let before = pieces(shorter);
        law_pieces_make_up_the_path(shorter);
        if p.last() == SLASH {
            assert(pieces(p).drop_last() =~= before);
            assert(glued(pieces(p)) =~= p);
        } else {
            let c = p.last();
            let longer = before.last().push(c);
            assert(pieces(p).drop_last() =~= before.drop_last());
            assert(!before[before.len() - 1].contains(47));
            assert(!longer.contains(47)) by {
                if longer.contains(47) {
                    let j = choose|j: int| 0 <= j < longer.len() && longer[j] == 47;
                    if j < before.last().len() {
                        assert(before.last()[j] == 47);
                        assert(before.last().contains(47));
                    }
                }
            }
            assert forall|i: int| 0 <= i < pieces(p).len() implies !(#[trigger] pieces(
                p,
            )[i]).contains(47) by {
                if i < before.len() - 1 {
                    assert(pieces(p)[i] == before[i]);
                }
            }
            assert(glued(pieces(p)) =~= glued(before).push(c)) by {
                if before.len() > 1 {
                    assert(glued(before) == glued(before.drop_last()).push(47) + before.last());
                    assert(glued(pieces(p)) == glued(before.drop_last()).push(47) + longer);
                } else {
                    assert(pieces(p).len() == 1);
                    assert(pieces(p)[0] == longer);
                }
            }
            assert(shorter.push(c) =~= p);
        }
    }
}

/// A path has its root or leading `.` as a component, and behind it, in order, its pieces
/// that are neither empty nor `.`.
pub proof fn law_components_are_root_and_names(p: Seq<u8>)
    ensures
        ({
            let names = pieces(p).filter(|piece: Seq<u8>| piece.len() > 0 && piece != seq![46u8]);
            components(p) == (if p.len() > 0 && p[0] == 47 {
                seq![seq![47u8]] + names
            } else if pieces(p)[0] == seq![46u8] {
                seq![seq![46u8]] + names
            } else {
                names
            })
        }),
{
    law_pieces_make_up_the_path(p);
    let first = lemma_first_piece(p);
    if pieces(p)[0] == seq![46u8] {
        assert(p.take(first)[0] == 46);
        assert(starts_at_dot(p));
    }
    if starts_at_dot(p) && !is_absolute(p) {
        assert(first == 1) by {
            if first == 0 {
                assert(p[0] == SLASH);
            } else if p.len() > 1 && first > 1 {
                assert(p[1] != SLASH);
            }
        }
        assert(p.take(1) =~= seq![46u8]);
    }
    assert((|piece: Seq<u8>| piece.len() > 0 && piece != seq![46u8]) =~= (|piece: Seq<u8>|
        piece.len() > 0 && piece != seq![DOT]));
}

/// The first piece ends at the first separator.
proof fn lemma_first_piece(p: Seq<u8>) -> (at: int)
    ensures
        0 <= at <= p.len(),
        at < p.len() ==> p[at] == SLASH,
        forall|j: int| 0 <= j < at ==> p[j] != SLASH,
        pieces(p).len() > 0,
        pieces(p)[0] == p.take(at),
        at == p.len() ==> pieces(p).len() == 1,
        at < p.len() ==> pieces(p).len() > 1,
    decreases p.len(),
{
    if p.len() == 0 {
        assert(p.take(0) =~= Seq::<u8>::empty());
        0
    } else {
        let shorter = p.drop_last();
        let at = lemma_first_piece(shorter);
        assert forall|j: int| 0 <= j < at implies p[j] != SLASH by {
            assert(shorter[j] == p[j]);
        }
        if at < shorter.len() {
            assert(shorter.take(at) =~= p.take(at));
            assert(shorter[at] == p[at]);
            at
        } else if p.last() == SLASH {
            assert(shorter.take(at) =~= p.take(at));
            at
        } else {
            assert(p.take(at + 1) =~= shorter.take(at).push(p.last()));
            at + 1
        }
    }
}

/// A path is seen as its bytes, and is absolute if and only if the first is a separator.
pub proof fn law_path_is_seen_as_its_bytes(path: FilePath)
    ensures
        path@ == path.bytes@,
        is_absolute(path@) <==> path.bytes@.len() > 0 && path.bytes@[0] == 47,
{
}

} // verus!
