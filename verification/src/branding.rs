//! Strings that a distribution can override: the product name and what is
//! derived from it, and the slides of the progress page.
use vstd::prelude::*;

use crate::text::{self, is_blank, opt_view, views};

verus! {

/// One slide of the progress page.
#[derive(Debug, PartialEq, Eq)]
pub struct Slide {
    pub title: String,
    pub body: String,
}

/// What a branding file may hold.
#[derive(Debug, PartialEq, Eq)]
pub struct BrandingFile {
    pub name: Option<String>,
    pub slides: Vec<Slide>,
}

#[derive(Debug, PartialEq, Eq)]
pub struct Branding {
    pub name: String,
    pub installer_title: String,
    pub welcome_title: String,
    pub welcome_body: String,
    pub image_description: String,
    pub done_success_body: String,
    pub slides: Vec<Slide>,
}

/// Every string is the one that the name gives.
pub open spec fn is_branding_of(b: Branding, name: Seq<char>) -> bool {
    &&& b.name@ == name
    &&& b.installer_title@ == name + " Installer"@
    &&& b.welcome_title@ == "Welcome to "@ + name
    &&& b.welcome_body@ == "This installer will set up "@ + name
        + " on the disk you choose. Existing data on that disk will be erased."@
    &&& b.image_description@ == "Pick which "@ + name
        + " image to install on the target disk."@
    &&& b.done_success_body@ == name + " is installed. The system will reboot shortly."@
}

/// The name of a file: its own, unless it has none or only white space.
pub open spec fn effective_name(name: Option<Seq<char>>) -> Seq<char> {
    match name {
        Some(n) => if is_blank(n) {
            "COSMIC"@
        } else {
            n
        },
        None => "COSMIC"@,
    }
}

impl Branding {
    /// The branding of a product name.
    pub fn from_name(name: &str) -> (r: Branding)
        ensures
            is_branding_of(r, name@),
            r.slides@.len() == 0,
    {
        Branding {
            name: name.to_owned(),
            installer_title: text::cat2(name, " Installer"),
            welcome_title: text::cat2("Welcome to ", name),
            welcome_body: text::cat3(
                "This installer will set up ",
                name,
                " on the disk you choose. Existing data on that disk will be erased.",
            ),
            image_description: text::cat3(
                "Pick which ",
                name,
                " image to install on the target disk.",
            ),
            done_success_body: text::cat2(name, " is installed. The system will reboot shortly."),
            slides: Vec::new(),
        }
    }

    /// The branding of a file.
    pub fn from_file(file: BrandingFile) -> (r: Branding)
        ensures
            is_branding_of(r, effective_name(opt_view(file.name))),
            r.slides == file.slides,
    {
        let mut r = match &file.name {
            Some(n) => if text::blank(n.as_str()) {
                Branding::from_name("COSMIC")
            } else {
                Branding::from_name(n.as_str())
            },
            None => Branding::from_name("COSMIC"),
        };
        r.slides = file.slides;
        r
    }

    /// The branding of the first candidate that could be read; one that is
    /// missing or malformed is passed over, and without any the built-in
    /// default holds.
    pub fn choose_file(candidates: Vec<Option<BrandingFile>>) -> (r: Branding)
        ensures
            match first_present(candidates@, 0) {
                Some(file) => is_branding_of(r, effective_name(opt_view(file.name)))
                    && r.slides == file.slides,
                None => is_branding_of(r, "COSMIC"@) && r.slides@.len() == 0,
            },
    {
        let ghost all = candidates@;
        let mut rest = candidates;
        let ghost mut n: int = 0;
        assert(all.skip(0) =~= all);
        while rest.len() > 0
            invariant
                0 <= n <= all.len(),
                all == candidates@,
                rest@ == all.skip(n),
                first_present(all, 0) == first_present(all, n),
            decreases rest@.len(),
        {
            let ghost before = rest@;
            let head = rest.remove(0);
            assert(head == all[n]);
            assert(rest@ =~= all.skip(n + 1));
            match head {
                Some(file) => {
                    return Branding::from_file(file);
                },
                None => {},
            }
            proof {
                n = n + 1;
            }
        }
        assert(n == all.len());
        Branding::default()
    }
}

/// The first file that could be read, at or behind `i`.
pub open spec fn first_present(
    candidates: Seq<Option<BrandingFile>>,
    i: int,
) -> Option<BrandingFile>
    decreases candidates.len() - i,
{
    if i < 0 || i >= candidates.len() {
        None
    } else if candidates[i] is Some {
        candidates[i]
    } else {
        first_present(candidates, i + 1)
    }
}

impl Default for Branding {
    fn default() -> (r: Self)
        ensures
            is_branding_of(r, "COSMIC"@),
            r.slides@.len() == 0,
    {
        Branding::from_name("COSMIC")
    }
}

/// Where branding is looked for, in order: the override where one is set,
/// then the system's path, then the vendor's.
pub open spec fn branding_paths(over: Option<Seq<char>>) -> Seq<Seq<char>> {
    (match over {
        Some(p) => if p.len() > 0 {
            seq![p]
        } else {
            Seq::empty()
        },
        None => Seq::empty(),
    }) + seq![
        "/etc/cosmonaut-installer/branding.json"@,
        "/usr/share/cosmonaut-installer/branding.json"@,
    ]
}

pub fn search_paths(over: &Option<String>) -> (r: Vec<String>)
    ensures
        views(r@) == branding_paths(opt_view(*over)),
{
    let mut out: Vec<String> = Vec::new();
    if let Some(p) = over {
        if text::chars_of(p.as_str()).len() > 0 {
            out.push(p.clone());
        }
    }
    out.push("/etc/cosmonaut-installer/branding.json".to_owned());
    out.push("/usr/share/cosmonaut-installer/branding.json".to_owned());
    assert(views(out@) =~= branding_paths(opt_view(*over)));
    out
}

/// The first file that is there counts, that of the user before those of the
/// system; without any the name is COSMIC, and so it is with a blank one.
pub proof fn law_the_first_branding_counts(
    over: Option<Seq<char>>,
    candidates: Seq<Option<BrandingFile>>,
    name: Seq<char>,
    i: int,
)
    ensures
        over is Some && over->0.len() > 0 ==> branding_paths(over) == seq![
            over->0,
            "/etc/cosmonaut-installer/branding.json"@,
            "/usr/share/cosmonaut-installer/branding.json"@,
        ],
        over is None || over->0.len() == 0 ==> branding_paths(over) == seq![
            "/etc/cosmonaut-installer/branding.json"@,
            "/usr/share/cosmonaut-installer/branding.json"@,
        ],
        0 <= i < candidates.len() && candidates[i] is Some && (forall|j: int|
            0 <= j < i ==> (#[trigger] candidates[j]) is None) ==> first_present(candidates, 0)
            == candidates[i],
        (forall|j: int| 0 <= j < candidates.len() ==> (#[trigger] candidates[j]) is None)
            ==> first_present(candidates, 0) is None,
        effective_name(None) == "COSMIC"@,
        (exists|k: int| 0 <= k < name.len() && !text::is_white(#[trigger] name[k]))
            ==> effective_name(Some(name)) == name,
        (forall|k: int| 0 <= k < name.len() ==> text::is_white(#[trigger] name[k]))
            ==> effective_name(Some(name)) == "COSMIC"@,
{
    if over is Some && over->0.len() > 0 {
        assert(branding_paths(over) =~= seq![
            over->0,
            "/etc/cosmonaut-installer/branding.json"@,
            "/usr/share/cosmonaut-installer/branding.json"@,
        ]);
    } else {
        assert(branding_paths(over) =~= seq![
            "/etc/cosmonaut-installer/branding.json"@,
            "/usr/share/cosmonaut-installer/branding.json"@,
        ]);
    }
    lemma_first_present(candidates, 0, i);
    text::law_trimming_strips(name);
}

proof fn lemma_first_present(candidates: Seq<Option<BrandingFile>>, from: int, i: int)
    requires
        0 <= from,
    ensures
        from <= i < candidates.len() && candidates[i] is Some && (forall|j: int|
            from <= j < i ==> (#[trigger] candidates[j]) is None) ==> first_present(
            candidates,
            from,
        ) == candidates[i],
        (forall|j: int| from <= j < candidates.len() ==> (#[trigger] candidates[j]) is None)
            ==> first_present(candidates, from) is None,
    decreases candidates.len() - from,
{
    if from < candidates.len() {
        lemma_first_present(candidates, from + 1, i);
    }
}

} // verus!
