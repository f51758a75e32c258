use vstd::prelude::*;
use vstd::string::StringExecFns;

verus! {

/// What a mod manifest says of one mod.
pub struct ModData {
    name: String,
    slug: String,
    version: String,
    description: Option<String>,
    authors: Option<String>,
    license: Option<String>,
    logo_path: Option<String>,
    url: Option<String>,
}

impl ModData {
    pub closed spec fn slug_view(&self) -> Seq<char> {
        self.slug@
    }

    pub closed spec fn name_view(&self) -> Seq<char> {
        self.name@
    }

    pub closed spec fn version_view(&self) -> Seq<char> {
        self.version@
    }

    /// A mod's data; the optional parts are filled in as the manifest has them.
    pub fn new(
        name: String,
        slug: String,
        version: String,
        description: Option<String>,
        authors: Option<String>,
        license: Option<String>,
        logo_path: Option<String>,
        url: Option<String>,
    ) -> (r: ModData)
        ensures
            r.name_view() == name@,
            r.slug_view() == slug@,
            r.version_view() == version@,
    {
        ModData { name, slug, version, description, authors, license, logo_path, url }
    }

    /// The mod's identifier.
    pub fn slug(&self) -> (r: &str)
        ensures
            r@ == self.slug_view(),
    {
        self.slug.as_str()
    }
}

/// A manifest value that may be written as one item or as a list.
pub enum OneOrMany<T> {
    One(T),
    Many(Vec<T>),
}

/// The strings of `xs` with `sep` between each two.
pub open spec fn spec_join(xs: Seq<Seq<char>>, sep: Seq<char>) -> Seq<char>
    decreases xs.len(),
{
    if xs.len() == 0 {
        Seq::empty()
    } else if xs.len() == 1 {
        xs[0]
    } else {
        spec_join(xs.drop_last(), sep) + sep + xs.last()
    }
}

/// The views of a list of strings.
pub open spec fn views_of(xs: Seq<String>) -> Seq<Seq<char>> {
    xs.map_values(|s: String| s@)
}

impl OneOrMany<String> {
    /// The one item, or the items joined by `sep`.
    pub fn join(&self, sep: &str) -> (r: String)
        ensures
            match self {
                OneOrMany::One(x) => r@ == x@,
                OneOrMany::Many(xs) => r@ == spec_join(views_of(xs@), sep@),
            },
    {
        match self {
            OneOrMany::One(x) => x.clone(),
            OneOrMany::Many(xs) => {
                let mut out = String::new();
                let mut i: usize = 0;
                while i < xs.len()
                    invariant
                        i <= xs@.len(),
                        out@ == spec_join(views_of(xs@.subrange(0, i as int)), sep@),
                    decreases xs@.len() - i,
                {
                    let ghost before = views_of(xs@.subrange(0, i as int));
                    if i > 0 {
                        out.append(sep);
                    }
                    out.append(xs[i].as_str());
                    proof {
                        let now = views_of(xs@.subrange(0, i as int + 1));
                        assert(now.drop_last() =~= before);
                        assert(now.last() == xs@[i as int]@);
                        if i == 0 {
                            assert(before =~= Seq::<Seq<char>>::empty());
                            assert(out@ =~= xs@[0]@);
                        }
                    }
                    i = i + 1;
                }
                assert(xs@.subrange(0, xs@.len() as int) =~= xs@);
                out
            },
        }
    }
}

} // verus!
