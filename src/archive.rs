use vstd::prelude::*;

verus! {

/// What a node of the archive holds.
pub enum NodeValue {
    Directory,
    /// A lazily decoded subtree; its children appear once it is parsed.
    Container,
    Int(i32),
    Text(String),
    Vector(i32, i32),
    Image { width: u32, height: u32 },
    Other,
}

#[derive(Clone, Copy, Debug, PartialEq, Eq, Structural)]
pub enum ValueKind {
    Directory,
    Container,
    Int,
    Text,
    Vector,
    Image,
    Other,
}

pub open spec fn kind_of(v: NodeValue) -> ValueKind {
    match v {
        NodeValue::Directory => ValueKind::Directory,
        NodeValue::Container => ValueKind::Container,
        NodeValue::Int(_) => ValueKind::Int,
        NodeValue::Text(_) => ValueKind::Text,
        NodeValue::Vector(_, _) => ValueKind::Vector,
        NodeValue::Image { .. } => ValueKind::Image,
        NodeValue::Other => ValueKind::Other,
    }
}

/// One node of the arena.
pub struct Entry {
    pub name: String,
    pub parent: Option<usize>,
    pub value: NodeValue,
    pub parsed: bool,
    pub children: Vec<usize>,
}

/// The loaded part of an archive: nodes addressed by index, the root first.
pub struct Archive {
    pub entries: Vec<Entry>,
}

/// A handle to a node of an archive.
#[derive(Clone, Copy, Debug, PartialEq, Eq, Structural)]
pub struct Node {
    pub id: usize,
}

/// The name of a child node.
pub struct NodeName {
    pub name: String,
}

#[derive(Clone, Copy, Debug, PartialEq, Eq, Structural)]
pub enum ResolutionError {
    NotFound,
    TypeMismatch(ValueKind, ValueKind),
    /// The container must be decoded before resolution can go on.
    NeedsParse(Node),
    /// A child name that had to be a number is not one.
    BadKey,
    /// A code outside the values the format defines.
    BadValue,
}

pub open spec fn is_img_name(s: Seq<char>) -> bool {
    s.len() >= 4 && s[s.len() - 4] == '.' && s[s.len() - 3] == 'i' && s[s.len() - 2] == 'm'
        && s[s.len() - 1] == 'g'
}

/// Splits a path at each `/`.
pub open spec fn split_path(s: Seq<char>) -> Seq<Seq<char>>
    decreases s.len(),
{
    if s.len() == 0 {
        seq![Seq::<char>::empty()]
    } else {
        let r = split_path(s.drop_last());
        if s.last() == '/' {
            r.push(Seq::<char>::empty())
        } else {
            r.update(r.len() - 1, r.last().push(s.last()))
        }
    }
}

pub open spec fn chain(r: Result<Node, ResolutionError>, a: Archive, q: Seq<char>) -> Result<
    Node,
    ResolutionError,
> {
    match r {
        Ok(m) => a.at_path_spec(m.id as int, q),
        Err(e) => Err(e),
    }
}

impl Archive {
    pub open spec fn len(&self) -> int {
        self.entries@.len() as int
    }

    pub open spec fn name_of(&self, n: int) -> Seq<char> {
        self.entries@[n].name@
    }

    pub open spec fn value_of(&self, n: int) -> NodeValue {
        self.entries@[n].value
    }

    pub open spec fn needs_parse(&self, n: int) -> bool {
        self.entries@[n].value is Container && !self.entries@[n].parsed
    }

    /// The children that can be seen: none while a container waits to be parsed.
    pub open spec fn visible(&self, n: int) -> Seq<usize> {
        if self.needs_parse(n) {
            Seq::empty()
        } else {
            self.entries@[n].children@
        }
    }

    pub open spec fn find_in(&self, kids: Seq<usize>, name: Seq<char>, k: int) -> Option<usize>
        decreases kids.len() - k,
    {
        if k < 0 || k >= kids.len() {
            None
        } else if self.name_of(kids[k] as int) == name {
            Some(kids[k])
        } else {
            self.find_in(kids, name, k + 1)
        }
    }

    /// The visible child of `n` with the given name.
    pub open spec fn child(&self, n: int, name: Seq<char>) -> Option<usize> {
        self.find_in(self.visible(n), name, 0)
    }

    pub open spec fn wf(&self) -> bool {
        &&& self.entries@.len() > 0
        &&& self.entries@[0].parent is None
        &&& forall|i: int|
            0 <= i < self.len() ==> match #[trigger] self.entries@[i].parent {
                Some(p) => p < i,
                None => i == 0,
            }
        &&& forall|i: int, j: int|
            0 <= i < self.len() && 0 <= j < self.entries@[i].children@.len() ==> {
                let c = #[trigger] self.entries@[i].children@[j];
                &&& c < self.len()
                &&& self.entries@[c as int].parent == Some(i as usize)
            }
        &&& forall|i: int, j: int, k: int|
            0 <= i < self.len() && 0 <= j < k < self.entries@[i].children@.len() ==> self.name_of(
                #[trigger] self.entries@[i].children@[j] as int,
            ) != self.name_of(#[trigger] self.entries@[i].children@[k] as int)
    }

    pub open spec fn valid(&self, n: Node) -> bool {
        n.id < self.len()
    }

    /// Follows path segments from `n`; after a segment that names an image
    /// container, that container must have been parsed.
    pub open spec fn resolve(&self, n: int, segs: Seq<Seq<char>>) -> Result<Node, ResolutionError>
        decreases segs.len(),
    {
        if segs.len() == 0 {
            Ok(Node { id: n as usize })
        } else {
            match self.child(n, segs[0]) {
                None => Err(ResolutionError::NotFound),
                Some(c) => if is_img_name(segs[0]) && self.needs_parse(c as int) {
                    Err(ResolutionError::NeedsParse(Node { id: c }))
                } else {
                    self.resolve(c as int, segs.drop_first())
                },
            }
        }
    }

    pub open spec fn at_path_spec(&self, n: int, path: Seq<char>) -> Result<Node, ResolutionError> {
        if path.len() == 0 {
            Err(ResolutionError::NotFound)
        } else {
            self.resolve(n, split_path(path))
        }
    }

    /// Slash-joined names from the root down to `n`.
    pub open spec fn full_path(&self, n: int) -> Seq<char>
        decreases n,
    {
        if 0 <= n < self.len() {
            match self.entries@[n].parent {
                Some(p) => if 0 <= p < n {
                    self.full_path(p as int) + seq!['/'] + self.name_of(n)
                } else {
                    self.name_of(n)
                },
                None => self.name_of(n),
            }
        } else {
            Seq::empty()
        }
    }

    /// An archive holding only a root directory.
    pub fn new(root_name: String) -> (r: Archive)
        ensures
            r.wf(),
            r.len() == 1,
            r.name_of(0) == root_name@,
            r.value_of(0) is Directory,
            r.entries@[0].children@.len() == 0,
    {
        let root = Entry {
            name: root_name,
            parent: None,
            value: NodeValue::Directory,
            parsed: true,
            children: Vec::new(),
        };
        let mut entries = Vec::new();
        entries.push(root);
        Archive { entries }
    }

    pub fn root(&self) -> (r: Node)
        requires
            self.wf(),
        ensures
            r.id == 0,
            self.valid(r),
    {
        Node { id: 0 }
    }

    fn find_child(&self, n: usize, name: &String, all: bool) -> (r: Option<usize>)
        requires
            self.wf(),
            n < self.len(),
        ensures
            all ==> r == self.find_in(self.entries@[n as int].children@, name@, 0),
            !all ==> r == self.child(n as int, name@),
            r matches Some(c) ==> c < self.len(),
    {
        let unparsed = match &self.entries[n].value {
            NodeValue::Container => !self.entries[n].parsed,
            _ => false,
        };
        if !all && unparsed {
            return None;
        }
        assert(!all ==> self.visible(n as int) == self.entries@[n as int].children@);
        let ghost kids = self.entries@[n as int].children@;
        let mut k: usize = 0;
        while k < self.entries[n].children.len()
            invariant
                self.wf(),
                n < self.len(),
                kids == self.entries@[n as int].children@,
                k <= kids.len(),
                self.find_in(kids, name@, 0) == self.find_in(kids, name@, k as int),
                !all ==> self.visible(n as int) == kids,
            decreases kids.len() - k,
        {
            let c = self.entries[n].children[k];
            if self.entries[c].name == *name {
                return Some(c);
            }
            k = k + 1;
        }
        None
    }

    /// Adds a child under `parent`; `None` when the name is already taken.
    pub fn add_child(&mut self, parent: Node, name: String, value: NodeValue) -> (r: Option<Node>)
        requires
            old(self).wf(),
            old(self).valid(parent),
            old(self).len() < usize::MAX,
        ensures
            final(self).wf(),
            old(self).find_in(old(self).entries@[parent.id as int].children@, name@, 0) is Some
                ==> r is None && *final(self) == *old(self),
            old(self).find_in(old(self).entries@[parent.id as int].children@, name@, 0) is None
                ==> r == Some(Node { id: old(self).len() as usize }) && final(self).len() == old(
                self,
            ).len() + 1 && final(self).name_of(old(self).len()) == name@ && final(self).value_of(
                old(self).len(),
            ) == value && final(self).entries@[parent.id as int].children@ == old(
                self,
            ).entries@[parent.id as int].children@.push(old(self).len() as usize)
                && final(self).entries@[old(self).len()].parent == Some(parent.id)
                && final(self).entries@[old(self).len()].children@.len() == 0
                && final(self).entries@[old(self).len()].parsed == !(value is Container),
            final(self).len() <= old(self).len() + 1,
            final(self).entries@[parent.id as int].name == old(self).entries@[parent.id as int].name,
            final(self).entries@[parent.id as int].value == old(self).entries@[parent.id as int].value,
            final(self).entries@[parent.id as int].parsed == old(self).entries@[parent.id as int].parsed,
            final(self).entries@[parent.id as int].parent == old(self).entries@[parent.id as int].parent,
            forall|i: int|
                0 <= i < old(self).len() && i != parent.id ==> final(self).entries@[i] == old(
                    self,
                ).entries@[i],
    {
        if self.find_child(parent.id, &name, true).is_some() {
            return None;
        }
        proof {
            self.lemma_find_none(self.entries@[parent.id as int].children@, name@, 0);
        }
        let id = self.entries.len();
        let parsed = !matches!(value, NodeValue::Container);
        let ghost old_self = *self;
        self.entries.push(Entry { name, parent: Some(parent.id), value, parsed, children: Vec::new() });
        let mut e = self.entries.remove(parent.id);
        e.children.push(id);
        self.entries.insert(parent.id, e);
        proof {
            assert forall|i: int| 0 <= i < old_self.len() && i != parent.id implies self.entries@[i]
                == old_self.entries@[i] by {}
        }
        Some(Node { id })
    }

    /// Marks a container as decoded, once its children have been added.
    pub fn mark_parsed(&mut self, n: Node)
        requires
            old(self).wf(),
            old(self).valid(n),
        ensures
            final(self).wf(),
            final(self).len() == old(self).len(),
            !final(self).needs_parse(n.id as int),
            final(self).entries@[n.id as int].children@ == old(self).entries@[n.id as int].children@,
            final(self).entries@[n.id as int].name@ == old(self).entries@[n.id as int].name@,
            final(self).entries@[n.id as int].value == old(self).entries@[n.id as int].value,
            final(self).entries@[n.id as int].parent == old(self).entries@[n.id as int].parent,
            forall|i: int| 0 <= i < old(self).len() && i != n.id ==> final(self).entries@[i] == old(
                self,
            ).entries@[i],
    {
        let mut e = self.entries.remove(n.id);
        e.parsed = true;
        self.entries.insert(n.id, e);
        proof {
            assert forall|i: int, j: int, k: int|
                0 <= i < self.len() && 0 <= j < k < self.entries@[i].children@.len() implies self.name_of(
                    #[trigger] self.entries@[i].children@[j] as int,
                ) != self.name_of(#[trigger] self.entries@[i].children@[k] as int) by {
                let ghost c1 = self.entries@[i].children@[j] as int;
                let ghost c2 = self.entries@[i].children@[k] as int;
                assert(self.entries@[c1].name == self.entries@[c1].name);
            }
        }
    }

    proof fn lemma_find_none(&self, kids: Seq<usize>, name: Seq<char>, k: int)
        requires
            0 <= k <= kids.len(),
            self.find_in(kids, name, k) is None,
        ensures
            forall|j: int| k <= j < kids.len() ==> self.name_of(#[trigger] kids[j] as int) != name,
        decreases kids.len() - k,
    {
        if k < kids.len() {
            self.lemma_find_none(kids, name, k + 1);
        }
    }
}

impl NodeName {
    pub fn to_string(&self) -> (r: String)
        ensures
            r@ == self.name@,
    {
        self.name.clone()
    }

    pub fn as_str(&self) -> (r: &str)
        ensures
            r@ == self.name@,
    {
        self.name.as_str()
    }
}

/// Splits a path into its segments.
pub fn split_segments(path: &str) -> (r: Vec<String>)
    ensures
        r@.len() == split_path(path@).len(),
        forall|i: int| 0 <= i < r@.len() ==> #[trigger] r@[i]@ == split_path(path@)[i],
{
    let n = path.unicode_len();
    let mut segs: Vec<String> = Vec::new();
    let mut start: usize = 0;
    let mut i: usize = 0;
    while i < n
        invariant
            n == path@.len(),
            start <= i <= n,
            split_path(path@.take(i as int)).len() == segs@.len() + 1,
            forall|j: int| 0 <= j < segs@.len() ==> #[trigger] segs@[j]@ == split_path(path@.take(i as int))[j],
            split_path(path@.take(i as int)).last() == path@.subrange(start as int, i as int),
        decreases n - i,
    {
        let c = path.get_char(i);
        proof {
            assert(path@.take(i + 1).drop_last() == path@.take(i as int));
            assert(path@.take(i + 1).last() == c);
        }
        if c == '/' {
            let seg = path.substring_char(start, i);
            segs.push(String::from_str(seg));
            start = i + 1;
        } else {
            assert(path@.subrange(start as int, i + 1) == path@.subrange(start as int, i as int).push(c));
        }
        i = i + 1;
    }
    let seg = path.substring_char(start, n);
    segs.push(String::from_str(seg));
    assert(path@.take(n as int) == path@);
    segs
}

fn is_img_segment(s: &String) -> (r: bool)
    ensures
        r == is_img_name(s@),
{
    let n = s.as_str().unicode_len();
    if n < 4 {
        return false;
    }
    let t = s.as_str();
    t.get_char(n - 4) == '.' && t.get_char(n - 3) == 'i' && t.get_char(n - 2) == 'm' && t.get_char(n - 1) == 'g'
}

impl Node {
    /// The child with the given name; the caller knows it is there.
    pub fn get(&self, a: &Archive, name: &str) -> (r: Node)
        requires
            a.wf(),
            a.valid(*self),
            a.child(self.id as int, name@) is Some,
        ensures
            Some(r.id) == a.child(self.id as int, name@),
            a.valid(r),
    {
        let key = String::from_str(name);
        Node { id: a.find_child(self.id, &key, false).unwrap() }
    }

    pub fn try_get(&self, a: &Archive, name: &str) -> (r: Option<Node>)
        requires
            a.wf(),
            a.valid(*self),
        ensures
            match r {
                Some(c) => a.child(self.id as int, name@) == Some(c.id) && a.valid(c),
                None => a.child(self.id as int, name@) is None,
            },
    {
        let key = String::from_str(name);
        match a.find_child(self.id, &key, false) {
            Some(c) => Some(Node { id: c }),
            None => None,
        }
    }

    pub fn has(&self, a: &Archive, name: &str) -> (r: bool)
        requires
            a.wf(),
            a.valid(*self),
        ensures
            r == a.child(self.id as int, name@) is Some,
    {
        let key = String::from_str(name);
        a.find_child(self.id, &key, false).is_some()
    }

    /// The visible children, in archive order.
    pub fn children(&self, a: &Archive) -> (r: Vec<(NodeName, Node)>)
        requires
            a.wf(),
            a.valid(*self),
        ensures
            r@.len() == a.visible(self.id as int).len(),
            forall|i: int|
                0 <= i < r@.len() ==> (#[trigger] r@[i]).1.id == a.visible(self.id as int)[i]
                    && r@[i].0.name@ == a.name_of(r@[i].1.id as int) && a.valid(r@[i].1),
    {
        let mut out: Vec<(NodeName, Node)> = Vec::new();
        let unparsed = match &a.entries[self.id].value {
            NodeValue::Container => !a.entries[self.id].parsed,
            _ => false,
        };
        if unparsed {
            return out;
        }
        let ghost kids = a.visible(self.id as int);
        let mut k: usize = 0;
        while k < a.entries[self.id].children.len()
            invariant
                a.wf(),
                a.valid(*self),
                kids == a.entries@[self.id as int].children@,
                k <= kids.len(),
                out@.len() == k,
                forall|i: int|
                    0 <= i < k ==> (#[trigger] out@[i]).1.id == kids[i] && out@[i].0.name@ == a.name_of(
                        out@[i].1.id as int,
                    ) && a.valid(out@[i].1),
            decreases kids.len() - k,
        {
            let c = a.entries[self.id].children[k];
            out.push((NodeName { name: a.entries[c].name.clone() }, Node { id: c }));
            k = k + 1;
        }
        out
    }

    /// This node itself once it can be walked, or the request to parse it.
    pub fn parse(&self, a: &Archive) -> (r: Result<Node, ResolutionError>)
        requires
            a.wf(),
            a.valid(*self),
        ensures
            a.needs_parse(self.id as int) ==> r == Err::<Node, ResolutionError>(ResolutionError::NeedsParse(*self)),
            !a.needs_parse(self.id as int) ==> r == Ok::<Node, ResolutionError>(*self),
    {
        let unparsed = match &a.entries[self.id].value {
            NodeValue::Container => !a.entries[self.id].parsed,
            _ => false,
        };
        if unparsed {
            Err(ResolutionError::NeedsParse(*self))
        } else {
            Ok(*self)
        }
    }

    /// Slash-joined names from the root to this node.
    pub fn path(&self, a: &Archive) -> (r: String)
        requires
            a.wf(),
            a.valid(*self),
        ensures
            r@ == a.full_path(self.id as int),
        decreases self.id,
    {
        match a.entries[self.id].parent {
            Some(p) => {
                let mut s = Node { id: p }.path(a);
                s.append("/");
                proof {
                    reveal_strlit("/");
                }
                s.append(a.entries[self.id].name.as_str());
                s
            },
            None => a.entries[self.id].name.clone(),
        }
    }

    /// Follows a slash-separated path. Every segment must name a visible
    /// child; a segment ending in `.img` names a container, which must be
    /// parsed before the walk goes on.
    pub fn at_path(&self, a: &Archive, path: &str) -> (r: Result<Node, ResolutionError>)
        requires
            a.wf(),
            a.valid(*self),
        ensures
            r == a.at_path_spec(self.id as int, path@),
            r matches Ok(m) ==> a.valid(m),
    {
        if path.unicode_len() == 0 {
            return Err(ResolutionError::NotFound);
        }
        let segs = split_segments(path);
        let ghost sp = split_path(path@);
        assert(segs@.len() == sp.len());
        let mut cur: usize = self.id;
        let mut k: usize = 0;
        assert(a.at_path_spec(self.id as int, path@) == a.resolve(self.id as int, sp));
        assert(sp.subrange(0, sp.len() as int) == sp);
        while k < segs.len()
            invariant
                a.wf(),
                cur < a.len(),
                k <= segs@.len(),
                segs@.len() == sp.len(),
                forall|i: int| 0 <= i < segs@.len() ==> #[trigger] segs@[i]@ == sp[i],
                a.resolve(cur as int, sp.subrange(k as int, sp.len() as int)) == a.resolve(self.id as int, sp),
                a.at_path_spec(self.id as int, path@) == a.resolve(self.id as int, sp),
            decreases segs@.len() - k,
        {
            let ghost rest = sp.subrange(k as int, sp.len() as int);
            proof {
                assert(rest.drop_first() == sp.subrange(k + 1, sp.len() as int));
                assert(rest[0] == segs@[k as int]@);
                assert(rest.len() > 0);
            }
            match a.find_child(cur, &segs[k], false) {
                None => {
                    assert(a.child(cur as int, rest[0]) is None);
                    assert(a.resolve(cur as int, rest) == Err::<Node, ResolutionError>(ResolutionError::NotFound));
                    return Err(ResolutionError::NotFound);
                },
                Some(c) => {
                    if is_img_segment(&segs[k]) {
                        let unparsed = match &a.entries[c].value {
                            NodeValue::Container => !a.entries[c].parsed,
                            _ => false,
                        };
                        if unparsed {
                            return Err(ResolutionError::NeedsParse(Node { id: c }));
                        }
                    }
                    cur = c;
                },
            }
            k = k + 1;
        }
        assert(sp.subrange(k as int, sp.len() as int).len() == 0);
        Ok(Node { id: cur })
    }
}

pub proof fn lemma_split_nonempty(s: Seq<char>)
    ensures
        split_path(s).len() >= 1,
    decreases s.len(),
{
    if s.len() > 0 {
        lemma_split_nonempty(s.drop_last());
    }
}

/// Splitting `p/q` gives the segments of `p` followed by those of `q`.
pub proof fn lemma_split_join(p: Seq<char>, q: Seq<char>)
    ensures
        split_path(p + seq!['/'] + q) == split_path(p) + split_path(q),
    decreases q.len(),
{
    let pq = p + seq!['/'] + q;
    if q.len() == 0 {
        assert(pq == p + seq!['/']);
        assert((p + seq!['/']).drop_last() == p);
        assert(split_path(q) == seq![Seq::<char>::empty()]);
        assert(split_path(p).push(Seq::<char>::empty()) == split_path(p) + split_path(q));
    } else {
        lemma_split_join(p, q.drop_last());
        lemma_split_nonempty(q.drop_last());
        lemma_split_nonempty(p);
        assert(pq.drop_last() == p + seq!['/'] + q.drop_last());
        assert(pq.last() == q.last());
        let r = split_path(p) + split_path(q.drop_last());
        let rq = split_path(q.drop_last());
        if q.last() == '/' {
            assert(r.push(Seq::<char>::empty()) == split_path(p) + rq.push(Seq::<char>::empty()));
        } else {
            assert(r.update(r.len() - 1, r.last().push(q.last())) == split_path(p) + rq.update(
                rq.len() - 1,
                rq.last().push(q.last()),
            ));
        }
    }
}

impl Archive {
    pub proof fn lemma_resolve_append(&self, n: int, s1: Seq<Seq<char>>, s2: Seq<Seq<char>>)
        requires
            0 <= n <= usize::MAX,
        ensures
            self.resolve(n, s1 + s2) == match self.resolve(n, s1) {
                Ok(m) => self.resolve(m.id as int, s2),
                Err(e) => Err(e),
            },
        decreases s1.len(),
    {
        if s1.len() == 0 {
            assert(s1 + s2 == s2);
        } else {
            assert((s1 + s2)[0] == s1[0]);
            assert((s1 + s2).drop_first() == s1.drop_first() + s2);
            match self.child(n, s1[0]) {
                Some(c) => {
                    self.lemma_resolve_append(c as int, s1.drop_first(), s2);
                },
                None => {},
            }
        }
    }
}

/// Resolving `p/q` in one step reaches what resolving `p` and then `q` from
/// its result reaches, with the same request to parse where one is due.
pub proof fn lemma_path_composes(a: Archive, n: int, p: Seq<char>, q: Seq<char>)
    requires
        0 <= n <= usize::MAX,
        p.len() > 0,
        q.len() > 0,
    ensures
        a.at_path_spec(n, p + seq!['/'] + q) == chain(a.at_path_spec(n, p), a, q),
{
    lemma_split_join(p, q);
    assert((p + seq!['/'] + q).len() > 0);
    a.lemma_resolve_append(n, split_path(p), split_path(q));
}

} // verus!
