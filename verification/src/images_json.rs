//! The image catalog: a tree whose leaves name images. The picker shows all
//! leaves flat.
use vstd::prelude::*;

use crate::text::{self, opt_view, views};

verus! {

pub struct Catalog {
    pub default_image: Option<String>,
    pub images: Vec<Node>,
}

/// A branch has children, a leaf an image reference; a node may be both.
pub struct Node {
    pub name: String,
    pub desc: Option<String>,
    pub imgref: Option<String>,
    pub children: Option<Vec<Node>>,
}

#[derive(Debug, PartialEq, Eq)]
pub struct ImageOption {
    pub name: String,
    pub desc: Option<String>,
    pub imgref: String,
}

#[verifier::ext_equal]
pub struct ImageView {
    pub name: Seq<char>,
    pub desc: Option<Seq<char>>,
    pub imgref: Seq<char>,
}

impl View for ImageOption {
    type V = ImageView;

    open spec fn view(&self) -> ImageView {
        ImageView { name: self.name@, desc: opt_view(self.desc), imgref: self.imgref@ }
    }
}

/// The leaves of one node, in source order: itself first.
pub open spec fn node_leaves(node: Node) -> Seq<ImageView>
    decreases node,
{
    (match node.imgref {
        Some(r) => seq![ImageView { name: node.name@, desc: opt_view(node.desc), imgref: r@ }],
        None => Seq::empty(),
    }) + (match node.children {
        Some(c) => all_leaves(c@),
        None => Seq::empty(),
    })
}

/// The leaves of several nodes, in source order.
pub open spec fn all_leaves(nodes: Seq<Node>) -> Seq<ImageView>
    decreases nodes,
{
    if nodes.len() == 0 {
        Seq::empty()
    } else {
        all_leaves(nodes.drop_last()) + node_leaves(nodes.last())
    }
}

fn collect_leaves(node: &Node, out: &mut Vec<ImageOption>)
    ensures
        views(final(out)@) == views(old(out)@) + node_leaves(*node),
    decreases node,
{
    let ghost start = views(out@);
    let ghost mut own: Seq<ImageView> = Seq::empty();
    if let Some(imgref) = &node.imgref {
        let ghost before = out@;
        let leaf = ImageOption {
            name: node.name.clone(),
            desc: text::clone_opt(&node.desc),
            imgref: imgref.clone(),
        };
        let ghost lv = leaf@;
        out.push(leaf);
        proof {
            own = seq![lv];
        }
        assert(views(out@) =~= start + own);
    } else {
        assert(views(out@) =~= start + own);
    }
    match &node.children {
        Some(children) => {
            let mut i: usize = 0;
            assert(children@.take(0) =~= Seq::empty());
            assert(views(out@) =~= start + own + all_leaves(children@.take(0)));
            while i < children.len()
                invariant
                    i <= children@.len(),
                    node.children == Some(*children),
                    views(out@) == start + own + all_leaves(children@.take(i as int)),
                decreases children@.len() - i,
            {
                let ghost so_far = children@.take(i as int);
                let ghost next = children@.take(i + 1);
                assert(next.drop_last() =~= so_far);
                assert(decreases_to!(node => node.children->0));
                assert(decreases_to!(node.children->0 => node.children->0@));
                assert(decreases_to!(node.children->0@ => node.children->0@[i as int]));
                collect_leaves(&children[i], out);
                assert(views(out@) =~= start + own + all_leaves(next));
                i += 1;
            }
            assert(children@.take(children@.len() as int) =~= children@);
            assert(views(out@) =~= start + node_leaves(*node));
        },
        None => {
            assert(views(out@) =~= start + node_leaves(*node));
        },
    }
}

impl Catalog {
    /// All leaves of the tree, in source order.
    pub fn leaves(&self) -> (r: Vec<ImageOption>)
        ensures
            views(r@) == all_leaves(self.images@),
    {
        let mut out: Vec<ImageOption> = Vec::new();
        let mut i: usize = 0;
        assert(self.images@.take(0) =~= Seq::empty());
        assert(views(out@) =~= Seq::empty());
        while i < self.images.len()
            invariant
                i <= self.images@.len(),
                views(out@) == all_leaves(self.images@.take(i as int)),
            decreases self.images@.len() - i,
        {
            assert(self.images@.take(i + 1).drop_last() =~= self.images@.take(i as int));
            collect_leaves(&self.images[i], &mut out);
            i += 1;
        }
        assert(self.images@.take(self.images@.len() as int) =~= self.images@);
        out
    }
}

/// Where the catalog is looked for, in order: the override where one is
/// set, then the usual path, then the historical one.
pub open spec fn catalog_paths(over: Option<Seq<char>>) -> Seq<Seq<char>> {
    (match over {
        Some(p) => if p.len() > 0 {
            seq![p]
        } else {
            Seq::empty()
        },
        None => Seq::empty(),
    }) + seq![
        "/etc/cosmonaut-installer/images.json"@,
        "/etc/bootc-installer/images.json"@,
    ]
}

pub fn search_paths(over: &Option<String>) -> (r: Vec<String>)
    ensures
        views(r@) == catalog_paths(opt_view(*over)),
{
    let mut out: Vec<String> = Vec::new();
    if let Some(p) = over {
        if text::chars_of(p.as_str()).len() > 0 {
            out.push(p.clone());
        }
    }
    out.push("/etc/cosmonaut-installer/images.json".to_owned());
    out.push("/etc/bootc-installer/images.json".to_owned());
    assert(views(out@) =~= catalog_paths(opt_view(*over)));
    out
}

/// The first catalog file that there is, at or behind `i`.
pub open spec fn first_catalog(
    candidates: Seq<Option<Result<Catalog, String>>>,
    i: int,
) -> Option<Result<Catalog, String>>
    decreases candidates.len() - i,
{
    if i < 0 || i >= candidates.len() {
        None
    } else if candidates[i] is Some {
        candidates[i]
    } else {
        first_catalog(candidates, i + 1)
    }
}

/// The catalog that counts, of the files that were looked for in order:
/// that of the first file that there is, even where it could not be read.
pub fn choose_catalog(candidates: Vec<Option<Result<Catalog, String>>>) -> (r: Result<
    Option<Catalog>,
    String,
>)
    ensures
        r == match first_catalog(candidates@, 0) {
            Some(Ok(c)) => Ok(Some(c)),
            Some(Err(m)) => Err(m),
            None => Ok(None),
        },
{
    let ghost all = candidates@;
    let mut rest = candidates;
    let ghost mut n: int = 0;
    assert(all.skip(0) =~= all);
    while rest.len() > 0
        invariant
            0 <= n <= all.len(),
            all == candidates@,
            rest@ == all.skip(n),
            first_catalog(all, 0) == first_catalog(all, n),
        decreases rest@.len(),
    {
        let head = rest.remove(0);
        assert(head == all[n]);
        assert(rest@ =~= all.skip(n + 1));
        match head {
            Some(Ok(c)) => return Ok(Some(c)),
            Some(Err(m)) => return Err(m),
            None => {},
        }
        proof {
            n = n + 1;
        }
    }
    Ok(None)
}

/// The first image at or behind `i` with this reference.
pub open spec fn image_from(images: Seq<ImageOption>, imgref: Seq<char>, i: int) -> Option<int>
    decreases images.len() - i,
{
    if i < 0 || i >= images.len() {
        None
    } else if images[i].imgref@ == imgref {
        Some(i)
    } else {
        image_from(images, imgref, i + 1)
    }
}

pub fn find_image(images: &Vec<ImageOption>, imgref: &str) -> (r: Option<usize>)
    ensures
        match r {
            Some(i) => image_from(images@, imgref@, 0) == Some(i as int) && i < images@.len(),
            None => image_from(images@, imgref@, 0) is None,
        },
{
    let mut i: usize = 0;
    while i < images.len()
        invariant
            i <= images@.len(),
            image_from(images@, imgref@, 0) == image_from(images@, imgref@, i as int),
        decreases images@.len() - i,
    {
        if text::same(images[i].imgref.as_str(), imgref) {
            return Some(i);
        }
        i += 1;
    }
    None
}

pub open spec fn image_text(o: ImageView) -> Seq<char> {
    match o.desc {
        Some(d) => o.name + "\n"@ + d,
        None => o.name,
    }
}

impl ImageOption {
    /// The option as shown: its name, and its description below.
    pub fn label(&self) -> (r: String)
        ensures
            r@ == image_text(self@),
    {
        match &self.desc {
            Some(d) => text::cat3(self.name.as_str(), "\n", d.as_str()),
            None => self.name.clone(),
        }
    }
}

/// The leaves of a node with children are those of the node itself, then
/// those of its children from first to last.
pub proof fn law_leaves_keep_order(nodes: Seq<Node>, more: Seq<Node>)
    ensures
        all_leaves(nodes + more) == all_leaves(nodes) + all_leaves(more),
    decreases more.len(),
{
    if more.len() == 0 {
        assert(nodes + more =~= nodes);
        assert(all_leaves(nodes) + all_leaves(more) =~= all_leaves(nodes));
    } else {
        law_leaves_keep_order(nodes, more.drop_last());
        assert((nodes + more).drop_last() =~= nodes + more.drop_last());
        assert((nodes + more).last() == more.last());
        assert(all_leaves(nodes + more) =~= all_leaves(nodes) + all_leaves(more));
    }
}

/// A node with an image reference is an image, under its name and with its
/// description, in front of those below it; a node without one only groups.
pub proof fn law_nodes_with_references_are_images(node: Node)
    ensures
        node.imgref matches Some(r) ==> node_leaves(node).len() > 0 && node_leaves(node)[0] == (
        ImageView { name: node.name@, desc: opt_view(node.desc), imgref: r@ }),
        node.imgref is Some && node.children is None ==> node_leaves(node).len() == 1,
        node.imgref is None && node.children is None ==> node_leaves(node).len() == 0,
        node.imgref is None && node.children is Some ==> node_leaves(node) == all_leaves(
            node.children->0@,
        ),
        node.imgref is Some && node.children is Some ==> node_leaves(node).skip(1) == all_leaves(
            node.children->0@,
        ),
{
    let below = match node.children {
        Some(c) => all_leaves(c@),
        None => Seq::empty(),
    };
    if node.imgref is Some {
        assert(node_leaves(node).skip(1) =~= below);
    } else {
        assert(node_leaves(node) =~= below);
    }
}

/// A catalog of the user's comes before those of the system, and of all that
/// are there the first one counts.
pub proof fn law_the_first_catalog_counts(
    over: Option<Seq<char>>,
    candidates: Seq<Option<Result<Catalog, String>>>,
    i: int,
)
    ensures
        over is Some && over->0.len() > 0 ==> catalog_paths(over) == seq![
            over->0,
            "/etc/cosmonaut-installer/images.json"@,
            "/etc/bootc-installer/images.json"@,
        ],
        over is None || over->0.len() == 0 ==> catalog_paths(over) == seq![
            "/etc/cosmonaut-installer/images.json"@,
            "/etc/bootc-installer/images.json"@,
        ],
        0 <= i < candidates.len() && candidates[i] is Some && (forall|j: int|
            0 <= j < i ==> (#[trigger] candidates[j]) is None) ==> first_catalog(candidates, 0)
            == candidates[i],
        (forall|j: int| 0 <= j < candidates.len() ==> (#[trigger] candidates[j]) is None)
            ==> first_catalog(candidates, 0) is None,
{
    let system = seq![
        "/etc/cosmonaut-installer/images.json"@,
        "/etc/bootc-installer/images.json"@,
    ];
    if over is Some && over->0.len() > 0 {
        assert(catalog_paths(over) =~= seq![
            over->0,
            "/etc/cosmonaut-installer/images.json"@,
            "/etc/bootc-installer/images.json"@,
        ]);
    } else {
        assert(catalog_paths(over) =~= system);
    }
    lemma_first_catalog(candidates, 0, i);
}

proof fn lemma_first_catalog(
    candidates: Seq<Option<Result<Catalog, String>>>,
    from: int,
    i: int,
)
    requires
        0 <= from,
    ensures
        from <= i < candidates.len() && candidates[i] is Some && (forall|j: int|
            from <= j < i ==> (#[trigger] candidates[j]) is None) ==> first_catalog(
            candidates,
            from,
        ) == candidates[i],
        (forall|j: int| from <= j < candidates.len() ==> (#[trigger] candidates[j]) is None)
            ==> first_catalog(candidates, from) is None,
    decreases candidates.len() - from,
{
    if from < candidates.len() {
        lemma_first_catalog(candidates, from + 1, i);
    }
}

/// An image is found by its reference, the first that has it.
pub proof fn law_images_are_found_by_reference(
    images: Seq<ImageOption>,
    imgref: Seq<char>,
    from: int,
)
    requires
        0 <= from <= images.len(),
    ensures
        image_from(images, imgref, from) is None <==> forall|j: int|
            from <= j < images.len() ==> (#[trigger] images[j]).imgref@ != imgref,
        image_from(images, imgref, from) matches Some(k) ==> from <= k < images.len()
            && images[k].imgref@ == imgref && forall|j: int|
            from <= j < k ==> (#[trigger] images[j]).imgref@ != imgref,
    decreases images.len() - from,
{
    if from < images.len() {
        law_images_are_found_by_reference(images, imgref, from + 1);
    }
}

/// An image is shown by its name and, below it, its description.
pub proof fn law_images_are_shown_by_name(o: ImageView)
    ensures
        o.desc is None ==> image_text(o) == o.name,
        o.desc matches Some(d) ==> image_text(o) == o.name + "\n"@ + d,
{
}

} // verus!
