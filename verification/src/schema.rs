//! Path templates ("schemas"): parsing, serialization, and their round trip.
//!
//! A schema string is a `/`-separated list of segments. A segment wrapped in
//! braces with a non-empty inside, such as `{status}`, is a tag placeholder;
//! every other segment, malformed braces included, is a literal. One leading
//! and one trailing slash are tolerated and stripped. Empty segments and
//! duplicate placeholders are legal and are reproduced as given.

use crate::diag::Diagnostic;
use crate::diag::DiagnosticModel;
use crate::expand::expand_spec;
use crate::expand::expand_tags;
use crate::paths::clone_path;
use crate::paths::is_seg_prefix;
use crate::paths::seg_prefix;
use crate::project::Project;
use crate::text::assoc_lookup;
use crate::text::join_char;
use crate::text::lookup_spec;
use crate::text::lemma_join_push;
use crate::text::lemma_join_split;
use crate::text::lemma_split_char_nonempty;
use crate::text::split_char;
use crate::text::split_string;
use vstd::prelude::*;
use vstd::string::StrSliceExecFns;
use vstd::string::StringExecFns;

verus! {

/// One segment of a schema: either literal text used verbatim, or the name
/// of a tag whose value is substituted when the schema is filled.
pub enum SchemaPathComponent {
    Tag(String),
    Fixed(String),
}

/// The mathematical value of a schema component.
pub enum ComponentModel {
    Tag(Seq<char>),
    Fixed(Seq<char>),
}

impl View for SchemaPathComponent {
    type V = ComponentModel;

    open spec fn view(&self) -> ComponentModel {
        match self {
            SchemaPathComponent::Tag(t) => ComponentModel::Tag(t@),
            SchemaPathComponent::Fixed(f) => ComponentModel::Fixed(f@),
        }
    }
}

impl DeepView for SchemaPathComponent {
    type V = ComponentModel;

    open spec fn deep_view(&self) -> ComponentModel {
        self.view()
    }
}

/// A path template: an ordered, non-empty sequence of components.
pub struct Schema {
    pub components: Vec<SchemaPathComponent>,
}

impl View for Schema {
    type V = Seq<ComponentModel>;

    open spec fn view(&self) -> Seq<ComponentModel> {
        self.components.deep_view()
    }
}

impl DeepView for Schema {
    type V = Seq<ComponentModel>;

    open spec fn deep_view(&self) -> Seq<ComponentModel> {
        self.view()
    }
}

/// The schema string with one optional leading and one optional trailing
/// slash removed.
pub open spec fn strip_slashes(s: Seq<char>) -> Seq<char> {
    let s1 = if s.len() > 0 && s[0] == '/' {
        s.subrange(1, s.len() as int)
    } else {
        s
    };
    if s1.len() > 0 && s1.last() == '/' {
        s1.drop_last()
    } else {
        s1
    }
}

/// How one segment is read: a brace-wrapped segment with a non-empty inside
/// is a placeholder, anything else stays a literal.
pub open spec fn classify_seg(seg: Seq<char>) -> ComponentModel {
    if seg.len() > 2 && seg[0] == '{' && seg.last() == '}' {
        ComponentModel::Tag(seg.subrange(1, seg.len() - 1))
    } else {
        ComponentModel::Fixed(seg)
    }
}

/// How one component is written back: placeholders are wrapped in braces,
/// literals appear verbatim.
pub open spec fn render_comp(comp: ComponentModel) -> Seq<char> {
    match comp {
        ComponentModel::Tag(t) => seq!['{'] + t + seq!['}'],
        ComponentModel::Fixed(f) => f,
    }
}

/// The component sequence a schema string denotes.
pub open spec fn parse_spec(s: Seq<char>) -> Seq<ComponentModel> {
    split_char(strip_slashes(s), '/').map_values(|seg: Seq<char>| classify_seg(seg))
}

/// The string a component sequence denotes.
pub open spec fn serialize_spec(comps: Seq<ComponentModel>) -> Seq<char> {
    join_char(comps.map_values(|comp: ComponentModel| render_comp(comp)), '/')
}

/// Writing a segment back after reading it reproduces the segment.
proof fn lemma_render_classify(seg: Seq<char>)
    ensures
        render_comp(classify_seg(seg)) == seg,
{
    if seg.len() > 2 && seg[0] == '{' && seg.last() == '}' {
        assert(render_comp(classify_seg(seg)) =~= seg);
    }
}

/// Serializing a parsed schema string reproduces the string, for any schema
/// string without a leading or trailing slash.
pub proof fn lemma_serialize_parse_round_trip(s: Seq<char>)
    requires
        s.len() == 0 || (s[0] != '/' && s.last() != '/'),
    ensures
        serialize_spec(parse_spec(s)) == s,
{
    assert(strip_slashes(s) == s);
    let parts = split_char(s, '/');
    let comps = parts.map_values(|seg: Seq<char>| classify_seg(seg));
    let rendered = comps.map_values(|comp: ComponentModel| render_comp(comp));
    assert forall|i: int| 0 <= i < parts.len() implies rendered[i] == parts[i] by {
        lemma_render_classify(parts[i]);
    }
    assert(rendered =~= parts);
    lemma_join_split(s, '/');
}

/// Reads one segment as a component.
fn classify_exec(seg: &str) -> (comp: SchemaPathComponent)
    ensures
        comp@ == classify_seg(seg@),
{
    let n = seg.unicode_len();
    if n > 2 && seg.get_char(0) == '{' && seg.get_char(n - 1) == '}' {
        let inner = seg.substring_char(1, n - 1);
        let comp = SchemaPathComponent::Tag(inner.to_owned());
        assert(comp@->Tag_0 =~= classify_seg(seg@)->Tag_0);
        comp
    } else {
        SchemaPathComponent::Fixed(seg.to_owned())
    }
}

proof fn lemma_map_classify_push(s: Seq<Seq<char>>, x: Seq<char>)
    ensures
        s.push(x).map_values(|seg: Seq<char>| classify_seg(seg)) == s.map_values(
            |seg: Seq<char>| classify_seg(seg),
        ).push(classify_seg(x)),
{
    assert(s.push(x).map_values(|seg: Seq<char>| classify_seg(seg)) =~= s.map_values(
        |seg: Seq<char>| classify_seg(seg),
    ).push(classify_seg(x)));
}

proof fn lemma_map_render_push(s: Seq<ComponentModel>, x: ComponentModel)
    ensures
        s.push(x).map_values(|comp: ComponentModel| render_comp(comp)) == s.map_values(
            |comp: ComponentModel| render_comp(comp),
        ).push(render_comp(x)),
{
    assert(s.push(x).map_values(|comp: ComponentModel| render_comp(comp)) =~= s.map_values(
        |comp: ComponentModel| render_comp(comp),
    ).push(render_comp(x)));
}

impl Schema {
    /// A schema is well formed when it has at least one component and no
    /// placeholder has an empty name.
    pub open spec fn wf(&self) -> bool {
        &&& self@.len() > 0
        &&& forall|i: int|
            0 <= i < self@.len() ==> (self@[i] is Tag ==> self@[i]->Tag_0.len() > 0)
    }

    /// Reads a schema string into its component sequence. Parsing never
    /// fails: malformed placeholder syntax degrades to a literal segment.
    pub fn parse(s: &str) -> (sch: Schema)
        ensures
            sch@ == parse_spec(s@),
            sch.wf(),
    {
        let n = s.unicode_len();
        let start: usize = if n > 0 && s.get_char(0) == '/' {
            1
        } else {
            0
        };
        let end: usize = if n > start && s.get_char(n - 1) == '/' {
            n - 1
        } else {
            n
        };
        let t = s.substring_char(start, end);
        assert(t@ =~= strip_slashes(s@));

        let segs = split_string(t, '/');
        let ghost segs_view = segs.deep_view();
        let mut components: Vec<SchemaPathComponent> = Vec::new();
        let mut i: usize = 0;
        proof {
            assert(components.deep_view() =~= segs_view.take(0).map_values(
                |seg: Seq<char>| classify_seg(seg),
            ));
        }
        while i < segs.len()
            invariant
                i <= segs@.len(),
                segs_view == segs.deep_view(),
                segs@.len() == segs_view.len(),
                components.deep_view() == segs_view.take(i as int).map_values(
                    |seg: Seq<char>| classify_seg(seg),
                ),
            decreases segs@.len() - i,
        {
            assert(segs_view[i as int] == segs@[i as int]@);
            let comp = classify_exec(segs[i].as_str());
            let ghost old_dv = components.deep_view();
            components.push(comp);
            proof {
                assert(components.deep_view() =~= old_dv.push(classify_seg(segs_view[i as int])));
                lemma_map_classify_push(segs_view.take(i as int), segs_view[i as int]);
                assert(segs_view.take(i + 1) =~= segs_view.take(i as int).push(
                    segs_view[i as int],
                ));
            }
            i = i + 1;
        }
        let sch = Schema { components };
        proof {
            assert(segs_view.take(segs_view.len() as int) =~= segs_view);
            assert(sch@ =~= parse_spec(s@));
            lemma_split_char_nonempty(strip_slashes(s@), '/');
            assert forall|j: int| 0 <= j < sch@.len() && sch@[j] is Tag implies sch@[j]->Tag_0.len()
                > 0 by {
                assert(sch@[j] == classify_seg(split_char(strip_slashes(s@), '/')[j]));
            }
        }
        sch
    }

    /// Writes the schema back as a schema string. Only a schema with no
    /// components has no string form.
    pub fn serialize(&self) -> (r: Option<String>)
        ensures
            (r is Some) <==> self@.len() > 0,
            r matches Some(out) ==> out@ == serialize_spec(self@),
    {
        if self.components.len() == 0 {
            assert(self@.len() == 0);
            return None;
        }
        let mut out = String::new();
        let mut i: usize = 0;
        while i < self.components.len()
            invariant
                i <= self.components@.len(),
                self@.len() == self.components@.len(),
                out@ == join_char(
                    self@.take(i as int).map_values(|comp: ComponentModel| render_comp(comp)),
                    '/',
                ),
            decreases self.components@.len() - i,
        {
            proof {
                reveal_strlit("/");
                reveal_strlit("{");
                reveal_strlit("}");
            }
            let ghost prefix = self@.take(i as int).map_values(
                |comp: ComponentModel| render_comp(comp),
            );
            if i > 0 {
                assert(prefix.len() == i);
                out.append("/");
            }
            assert(self@[i as int] == self.components@[i as int]@);
            match &self.components[i] {
                SchemaPathComponent::Fixed(f) => {
                    out.append(f.as_str());
                },
                SchemaPathComponent::Tag(t) => {
                    out.append("{");
                    out.append(t.as_str());
                    out.append("}");
                },
            }
            proof {
                lemma_join_push(prefix, render_comp(self@[i as int]), '/');
                lemma_map_render_push(self@.take(i as int), self@[i as int]);
                assert(self@.take(i + 1) =~= self@.take(i as int).push(self@[i as int]));
                if i == 0 {
                    assert(out@ =~= render_comp(self@[0]));
                } else {
                    assert(out@ =~= join_char(prefix, '/') + seq!['/'] + render_comp(
                        self@[i as int],
                    ));
                }
            }
            i = i + 1;
        }
        proof {
            assert(self@.take(self@.len() as int) =~= self@);
        }
        Some(out)
    }
}

/// The sentinel value used for a tag that can be resolved nowhere.
pub open spec fn sentinel_seq() -> Seq<char> {
    "unknown"@
}

/// The value a placeholder resolves to: the environment's value if the tag
/// is bound there, the default map's value otherwise, and the sentinel when
/// both fail.
pub open spec fn resolve_value_spec(
    env: Seq<(Seq<char>, Seq<char>)>,
    defaults: Seq<(Seq<char>, Seq<char>)>,
    tag: Seq<char>,
) -> Seq<char> {
    match lookup_spec(env, tag) {
        Some(v) => v,
        None => match lookup_spec(defaults, tag) {
            Some(v) => v,
            None => sentinel_seq(),
        },
    }
}

/// Whether a placeholder falls through to the sentinel: bound neither in the
/// environment nor in the default map. Falling back to the default map alone
/// is not a warning condition.
pub open spec fn tag_unresolved_spec(
    env: Seq<(Seq<char>, Seq<char>)>,
    defaults: Seq<(Seq<char>, Seq<char>)>,
    tag: Seq<char>,
) -> bool {
    lookup_spec(env, tag) is None && lookup_spec(defaults, tag) is None
}

/// The path segment one component contributes.
pub open spec fn fill_seg_spec(
    comp: ComponentModel,
    env: Seq<(Seq<char>, Seq<char>)>,
    defaults: Seq<(Seq<char>, Seq<char>)>,
) -> Seq<char> {
    match comp {
        ComponentModel::Fixed(f) => f,
        ComponentModel::Tag(t) => resolve_value_spec(env, defaults, t),
    }
}

/// The segments a schema contributes under one environment.
pub open spec fn fill_segs_spec(
    comps: Seq<ComponentModel>,
    env: Seq<(Seq<char>, Seq<char>)>,
    defaults: Seq<(Seq<char>, Seq<char>)>,
) -> Seq<Seq<char>> {
    comps.map_values(|comp: ComponentModel| fill_seg_spec(comp, env, defaults))
}

/// One complete view path: the base directory, the filled schema segments,
/// and the project's name as the final segment.
pub open spec fn fill_path_spec(
    comps: Seq<ComponentModel>,
    env: Seq<(Seq<char>, Seq<char>)>,
    defaults: Seq<(Seq<char>, Seq<char>)>,
    base: Seq<Seq<char>>,
    name: Seq<char>,
) -> Seq<Seq<char>> {
    base + fill_segs_spec(comps, env, defaults) + seq![name]
}

/// The unresolved-tag diagnostics the first `n` components emit under one
/// environment, in component order.
pub open spec fn env_diags_upto(
    comps: Seq<ComponentModel>,
    env: Seq<(Seq<char>, Seq<char>)>,
    defaults: Seq<(Seq<char>, Seq<char>)>,
    project: Seq<char>,
    n: int,
) -> Seq<DiagnosticModel>
    decreases n,
{
    if n <= 0 {
        Seq::empty()
    } else {
        env_diags_upto(comps, env, defaults, project, n - 1) + (if comps[n - 1] is Tag
            && tag_unresolved_spec(env, defaults, comps[n - 1]->Tag_0) {
            seq![DiagnosticModel::UnresolvedTag { tag: comps[n - 1]->Tag_0, project }]
        } else {
            Seq::empty()
        })
    }
}

/// The unresolved-tag diagnostics one environment emits: exactly one per
/// placeholder occurrence that resolves to the sentinel.
pub open spec fn env_diags_spec(
    comps: Seq<ComponentModel>,
    env: Seq<(Seq<char>, Seq<char>)>,
    defaults: Seq<(Seq<char>, Seq<char>)>,
    project: Seq<char>,
) -> Seq<DiagnosticModel> {
    env_diags_upto(comps, env, defaults, project, comps.len() as int)
}

/// The view paths one schema yields: one per environment, in environment
/// order.
pub open spec fn fill_paths_spec(
    comps: Seq<ComponentModel>,
    envs: Seq<Seq<(Seq<char>, Seq<char>)>>,
    defaults: Seq<(Seq<char>, Seq<char>)>,
    base: Seq<Seq<char>>,
    name: Seq<char>,
) -> Seq<Seq<Seq<char>>> {
    envs.map_values(|e: Seq<(Seq<char>, Seq<char>)>| fill_path_spec(comps, e, defaults, base, name))
}

/// The diagnostics of the first `n` environments, in order.
pub open spec fn schema_diags_upto(
    comps: Seq<ComponentModel>,
    envs: Seq<Seq<(Seq<char>, Seq<char>)>>,
    defaults: Seq<(Seq<char>, Seq<char>)>,
    project: Seq<char>,
    n: int,
) -> Seq<DiagnosticModel>
    decreases n,
{
    if n <= 0 {
        Seq::empty()
    } else {
        schema_diags_upto(comps, envs, defaults, project, n - 1) + env_diags_spec(
            comps,
            envs[n - 1],
            defaults,
            project,
        )
    }
}

/// The diagnostics one schema yields over all environments, with the
/// no-tags diagnostic when the expansion is empty.
pub open spec fn schema_diags_spec(
    comps: Seq<ComponentModel>,
    envs: Seq<Seq<(Seq<char>, Seq<char>)>>,
    defaults: Seq<(Seq<char>, Seq<char>)>,
    project: Seq<char>,
) -> Seq<DiagnosticModel> {
    schema_diags_upto(comps, envs, defaults, project, envs.len() as int) + (if envs.len() == 0 {
        seq![DiagnosticModel::ProjectHasNoTags { project }]
    } else {
        Seq::empty()
    })
}

/// Resolves one placeholder, reporting whether it fell to the sentinel.
fn resolve_value(
    env: &Vec<(String, String)>,
    defaults: &Vec<(String, String)>,
    tag: &String,
) -> (r: (String, bool))
    ensures
        r.0@ == resolve_value_spec(env.deep_view(), defaults.deep_view(), tag@),
        r.1 == tag_unresolved_spec(env.deep_view(), defaults.deep_view(), tag@),
{
    match assoc_lookup(env, tag) {
        Some(v) => (v.clone(), false),
        None => match assoc_lookup(defaults, tag) {
            Some(v) => (v.clone(), false),
            None => {
                let s = String::from_str("unknown");
                assert(s@ == sentinel_seq());
                (s, true)
            },
        },
    }
}

impl Schema {
    /// Builds the view path for one environment, collecting one diagnostic
    /// per placeholder that resolves to the sentinel.
    #[verifier::loop_isolation(false)]
    fn fill_env(
        &self,
        env: &Vec<(String, String)>,
        defaults: &Vec<(String, String)>,
        base: &Vec<String>,
        name: &String,
        project_id: &String,
    ) -> (r: (Vec<String>, Vec<Diagnostic>))
        ensures
            r.0.deep_view() == fill_path_spec(
                self@,
                env.deep_view(),
                defaults.deep_view(),
                base.deep_view(),
                name@,
            ),
            r.1.deep_view() == env_diags_spec(
                self@,
                env.deep_view(),
                defaults.deep_view(),
                project_id@,
            ),
    {
        let mut path = clone_path(base);
        let mut diags: Vec<Diagnostic> = Vec::new();
        let mut i: usize = 0;
        proof {
            assert(path.deep_view() =~= base.deep_view() + self@.take(0).map_values(
                |comp: ComponentModel| fill_seg_spec(comp, env.deep_view(), defaults.deep_view()),
            ));
            assert(diags.deep_view() =~= env_diags_upto(
                self@,
                env.deep_view(),
                defaults.deep_view(),
                project_id@,
                0,
            ));
        }
        while i < self.components.len()
            invariant
                i <= self.components@.len(),
                self@.len() == self.components@.len(),
                path.deep_view() == base.deep_view() + self@.take(i as int).map_values(
                    |comp: ComponentModel| fill_seg_spec(
                        comp,
                        env.deep_view(),
                        defaults.deep_view(),
                    ),
                ),
                diags.deep_view() == env_diags_upto(
                    self@,
                    env.deep_view(),
                    defaults.deep_view(),
                    project_id@,
                    i as int,
                ),
            decreases self.components@.len() - i,
        {
            assert(self@[i as int] == self.components@[i as int]@);
            let ghost path_old = path.deep_view();
            let ghost diags_old = diags.deep_view();
            match &self.components[i] {
                SchemaPathComponent::Fixed(f) => {
                    path.push(f.clone());
                    assert(self@[i as int] is Fixed);
                },
                SchemaPathComponent::Tag(t) => {
                    let (v, unresolved) = resolve_value(env, defaults, t);
                    path.push(v);
                    if unresolved {
                        let d = Diagnostic::UnresolvedTag { tag: t.clone(), project: project_id.clone() };
                        let ghost d_view = d@;
                        diags.push(d);
                        proof {
                            assert(diags.deep_view() =~= diags_old.push(d_view));
                        }
                    }
                },
            }
            proof {
                assert(path.deep_view() =~= path_old.push(
                    fill_seg_spec(self@[i as int], env.deep_view(), defaults.deep_view()),
                ));
                assert(self@.take(i + 1) =~= self@.take(i as int).push(self@[i as int]));
                assert(self@.take(i + 1).map_values(
                    |comp: ComponentModel| fill_seg_spec(
                        comp,
                        env.deep_view(),
                        defaults.deep_view(),
                    ),
                ) =~= self@.take(i as int).map_values(
                    |comp: ComponentModel| fill_seg_spec(
                        comp,
                        env.deep_view(),
                        defaults.deep_view(),
                    ),
                ).push(fill_seg_spec(self@[i as int], env.deep_view(), defaults.deep_view())));
                assert(path.deep_view() =~= base.deep_view() + self@.take(i + 1).map_values(
                    |comp: ComponentModel| fill_seg_spec(
                        comp,
                        env.deep_view(),
                        defaults.deep_view(),
                    ),
                ));
                assert(diags.deep_view() =~= env_diags_upto(
                    self@,
                    env.deep_view(),
                    defaults.deep_view(),
                    project_id@,
                    i + 1,
                ));
            }
            i = i + 1;
        }
        let ghost path_old = path.deep_view();
        path.push(name.clone());
        proof {
            assert(self@.take(self@.len() as int) =~= self@);
            assert(path.deep_view() =~= path_old.push(name@));
            assert(path.deep_view() =~= fill_path_spec(
                self@,
                env.deep_view(),
                defaults.deep_view(),
                base.deep_view(),
                name@,
            ));
        }
        (path, diags)
    }

    /// Builds every view path one schema yields for a project: one per
    /// resolved environment, plus the diagnostics of the run. A project with
    /// an empty tag map yields no paths and one no-tags diagnostic.
    #[verifier::loop_isolation(false)]
    pub fn fill(
        &self,
        project: &Project,
        defaults: &Vec<(String, String)>,
        base: &Vec<String>,
    ) -> (r: (Vec<Vec<String>>, Vec<Diagnostic>))
        ensures
            r.0.deep_view() == fill_paths_spec(
                self@,
                expand_spec(project.tags.deep_view()),
                defaults.deep_view(),
                base.deep_view(),
                project.name@,
            ),
            r.1.deep_view() == schema_diags_spec(
                self@,
                expand_spec(project.tags.deep_view()),
                defaults.deep_view(),
                project.uuid@,
            ),
    {
        let envs = expand_tags(&project.tags);
        let ghost envs_view = envs.deep_view();
        let mut paths: Vec<Vec<String>> = Vec::new();
        let mut diags: Vec<Diagnostic> = Vec::new();
        let mut i: usize = 0;
        proof {
            assert(paths.deep_view() =~= fill_paths_spec(
                self@,
                envs_view.take(0),
                defaults.deep_view(),
                base.deep_view(),
                project.name@,
            ));
            assert(diags.deep_view() =~= schema_diags_upto(
                self@,
                envs_view,
                defaults.deep_view(),
                project.uuid@,
                0,
            ));
        }
        while i < envs.len()
            invariant
                i <= envs@.len(),
                envs@.len() == envs_view.len(),
                envs_view == envs.deep_view(),
                paths.deep_view() == fill_paths_spec(
                    self@,
                    envs_view.take(i as int),
                    defaults.deep_view(),
                    base.deep_view(),
                    project.name@,
                ),
                diags.deep_view() == schema_diags_upto(
                    self@,
                    envs_view,
                    defaults.deep_view(),
                    project.uuid@,
                    i as int,
                ),
            decreases envs@.len() - i,
        {
            assert(envs_view[i as int] == envs@[i as int].deep_view());
            let (path, mut env_diags) = self.fill_env(
                &envs[i],
                defaults,
                base,
                &project.name,
                &project.uuid,
            );
            let ghost paths_old = paths.deep_view();
            let ghost diags_old = diags.deep_view();
            let ghost env_diags_view = env_diags.deep_view();
            paths.push(path);
            diags.append(&mut env_diags);
            proof {
                assert(paths.deep_view() =~= paths_old.push(
                    fill_path_spec(
                        self@,
                        envs_view[i as int],
                        defaults.deep_view(),
                        base.deep_view(),
                        project.name@,
                    ),
                ));
                assert(envs_view.take(i + 1) =~= envs_view.take(i as int).push(
                    envs_view[i as int],
                ));
                assert(fill_paths_spec(
                    self@,
                    envs_view.take(i + 1),
                    defaults.deep_view(),
                    base.deep_view(),
                    project.name@,
                ) =~= fill_paths_spec(
                    self@,
                    envs_view.take(i as int),
                    defaults.deep_view(),
                    base.deep_view(),
                    project.name@,
                ).push(
                    fill_path_spec(
                        self@,
                        envs_view[i as int],
                        defaults.deep_view(),
                        base.deep_view(),
                        project.name@,
                    ),
                ));
                assert(diags.deep_view() =~= diags_old + env_diags_view);
            }
            i = i + 1;
        }
        proof {
            assert(envs_view.take(envs_view.len() as int) =~= envs_view);
        }
        if envs.len() == 0 {
            let d = Diagnostic::ProjectHasNoTags { project: project.uuid.clone() };
            let ghost d_view = d@;
            let ghost diags_old = diags.deep_view();
            diags.push(d);
            proof {
                assert(diags.deep_view() =~= diags_old.push(d_view));
                assert(diags.deep_view() =~= schema_diags_spec(
                    self@,
                    envs_view,
                    defaults.deep_view(),
                    project.uuid@,
                ));
            }
        } else {
            proof {
                assert(diags.deep_view() =~= schema_diags_spec(
                    self@,
                    envs_view,
                    defaults.deep_view(),
                    project.uuid@,
                ));
            }
        }
        (paths, diags)
    }
}

/// A schema set: the schemas of one run and the default tag values used as
/// fallback when a project lacks a tag a schema mentions.
pub struct Schemas {
    pub schemas: Vec<Schema>,
    pub default_tag_values: Vec<(String, String)>,
}

/// The view paths the first `n` schemas yield, in schema order.
pub open spec fn schemas_paths_upto(
    schemas: Seq<Seq<ComponentModel>>,
    envs: Seq<Seq<(Seq<char>, Seq<char>)>>,
    defaults: Seq<(Seq<char>, Seq<char>)>,
    base: Seq<Seq<char>>,
    name: Seq<char>,
    n: int,
) -> Seq<Seq<Seq<char>>>
    decreases n,
{
    if n <= 0 {
        Seq::empty()
    } else {
        schemas_paths_upto(schemas, envs, defaults, base, name, n - 1) + fill_paths_spec(
            schemas[n - 1],
            envs,
            defaults,
            base,
            name,
        )
    }
}

/// The view paths a whole schema set yields for one project.
pub open spec fn schemas_fill_paths_spec(
    schemas: Seq<Seq<ComponentModel>>,
    envs: Seq<Seq<(Seq<char>, Seq<char>)>>,
    defaults: Seq<(Seq<char>, Seq<char>)>,
    base: Seq<Seq<char>>,
    name: Seq<char>,
) -> Seq<Seq<Seq<char>>> {
    schemas_paths_upto(schemas, envs, defaults, base, name, schemas.len() as int)
}

/// The diagnostics the first `n` schemas yield, in schema order.
pub open spec fn schemas_diags_upto(
    schemas: Seq<Seq<ComponentModel>>,
    envs: Seq<Seq<(Seq<char>, Seq<char>)>>,
    defaults: Seq<(Seq<char>, Seq<char>)>,
    project: Seq<char>,
    n: int,
) -> Seq<DiagnosticModel>
    decreases n,
{
    if n <= 0 {
        Seq::empty()
    } else {
        schemas_diags_upto(schemas, envs, defaults, project, n - 1) + schema_diags_spec(
            schemas[n - 1],
            envs,
            defaults,
            project,
        )
    }
}

/// The diagnostics a whole schema set yields for one project.
pub open spec fn schemas_fill_diags_spec(
    schemas: Seq<Seq<ComponentModel>>,
    envs: Seq<Seq<(Seq<char>, Seq<char>)>>,
    defaults: Seq<(Seq<char>, Seq<char>)>,
    project: Seq<char>,
) -> Seq<DiagnosticModel> {
    schemas_diags_upto(schemas, envs, defaults, project, schemas.len() as int)
}

impl Schemas {
    /// Builds every view path the schema set yields for one project, in
    /// schema order crossed with environment order, with the diagnostics of
    /// the run.
    #[verifier::loop_isolation(false)]
    pub fn fill(&self, project: &Project, base: &Vec<String>) -> (r: (
        Vec<Vec<String>>,
        Vec<Diagnostic>,
    ))
        ensures
            r.0.deep_view() == schemas_fill_paths_spec(
                self.schemas.deep_view(),
                expand_spec(project.tags.deep_view()),
                self.default_tag_values.deep_view(),
                base.deep_view(),
                project.name@,
            ),
            r.1.deep_view() == schemas_fill_diags_spec(
                self.schemas.deep_view(),
                expand_spec(project.tags.deep_view()),
                self.default_tag_values.deep_view(),
                project.uuid@,
            ),
    {
        let ghost schemas_view = self.schemas.deep_view();
        let ghost envs_view = expand_spec(project.tags.deep_view());
        let mut paths: Vec<Vec<String>> = Vec::new();
        let mut diags: Vec<Diagnostic> = Vec::new();
        let mut i: usize = 0;
        proof {
            assert(paths.deep_view() =~= schemas_paths_upto(
                schemas_view,
                envs_view,
                self.default_tag_values.deep_view(),
                base.deep_view(),
                project.name@,
                0,
            ));
            assert(diags.deep_view() =~= schemas_diags_upto(
                schemas_view,
                envs_view,
                self.default_tag_values.deep_view(),
                project.uuid@,
                0,
            ));
        }
        while i < self.schemas.len()
            invariant
                i <= self.schemas@.len(),
                self.schemas@.len() == schemas_view.len(),
                paths.deep_view() == schemas_paths_upto(
                    schemas_view,
                    envs_view,
                    self.default_tag_values.deep_view(),
                    base.deep_view(),
                    project.name@,
                    i as int,
                ),
                diags.deep_view() == schemas_diags_upto(
                    schemas_view,
                    envs_view,
                    self.default_tag_values.deep_view(),
                    project.uuid@,
                    i as int,
                ),
            decreases self.schemas@.len() - i,
        {
            assert(schemas_view[i as int] == self.schemas@[i as int]@);
            let (mut schema_paths, mut schema_diags) = self.schemas[i].fill(
                project,
                &self.default_tag_values,
                base,
            );
            let ghost paths_old = paths.deep_view();
            let ghost diags_old = diags.deep_view();
            let ghost sp_view = schema_paths.deep_view();
            let ghost sd_view = schema_diags.deep_view();
            paths.append(&mut schema_paths);
            diags.append(&mut schema_diags);
            proof {
                assert(paths.deep_view() =~= paths_old + sp_view);
                assert(diags.deep_view() =~= diags_old + sd_view);
            }
            i = i + 1;
        }
        (paths, diags)
    }
}

/// The default fallback is silent: a placeholder bound in the environment or
/// in the default map emits no diagnostic, so when every placeholder of a
/// schema is bound in one of the two, filling it emits none at all.
pub proof fn lemma_default_fallback_silent(
    comps: Seq<ComponentModel>,
    env: Seq<(Seq<char>, Seq<char>)>,
    defaults: Seq<(Seq<char>, Seq<char>)>,
    project: Seq<char>,
    n: int,
)
    requires
        n <= comps.len(),
        forall|j: int|
            0 <= j < comps.len() && (#[trigger] comps[j]) is Tag ==> !tag_unresolved_spec(
                env,
                defaults,
                comps[j]->Tag_0,
            ),
    ensures
        env_diags_upto(comps, env, defaults, project, n) == Seq::<DiagnosticModel>::empty(),
    decreases n,
{
    if n > 0 {
        lemma_default_fallback_silent(comps, env, defaults, project, n - 1);
        assert(env_diags_upto(comps, env, defaults, project, n) =~= Seq::<
            DiagnosticModel,
        >::empty());
    }
}

/// A tag found in the default map but not in the environment resolves to the
/// default value, and is not a warning condition.
pub proof fn lemma_default_fallback_value(
    env: Seq<(Seq<char>, Seq<char>)>,
    defaults: Seq<(Seq<char>, Seq<char>)>,
    tag: Seq<char>,
    v: Seq<char>,
)
    requires
        lookup_spec(env, tag) is None,
        lookup_spec(defaults, tag) == Some(v),
    ensures
        resolve_value_spec(env, defaults, tag) == v,
        !tag_unresolved_spec(env, defaults, tag),
{
}

/// A project with an empty tag map expands to no environments, so it yields
/// no view paths under any schema set: it never appears in the view tree.
pub proof fn lemma_empty_tags_excluded(
    schemas: Seq<Seq<ComponentModel>>,
    defaults: Seq<(Seq<char>, Seq<char>)>,
    base: Seq<Seq<char>>,
    name: Seq<char>,
    tags: Seq<(Seq<char>, Seq<char>)>,
)
    requires
        tags.len() == 0,
    ensures
        schemas_fill_paths_spec(
            schemas,
            expand_spec(Seq::empty()),
            defaults,
            base,
            name,
        ).len() == 0,
{
    lemma_schemas_paths_empty_envs(schemas, defaults, base, name, schemas.len() as int);
}

proof fn lemma_schemas_paths_empty_envs(
    schemas: Seq<Seq<ComponentModel>>,
    defaults: Seq<(Seq<char>, Seq<char>)>,
    base: Seq<Seq<char>>,
    name: Seq<char>,
    n: int,
)
    ensures
        schemas_paths_upto(schemas, Seq::empty(), defaults, base, name, n).len() == 0,
    decreases n,
{
    if n > 0 {
        lemma_schemas_paths_empty_envs(schemas, defaults, base, name, n - 1);
    }
}

/// An association list with one binding set: the first pair with the key is
/// replaced in place, and a missing key is appended at the end.
pub open spec fn upsert_spec(
    pairs: Seq<(Seq<char>, Seq<char>)>,
    k: Seq<char>,
    v: Seq<char>,
) -> Seq<(Seq<char>, Seq<char>)>
    decreases pairs.len(),
{
    if pairs.len() == 0 {
        seq![(k, v)]
    } else if pairs[0].0 == k {
        seq![(k, v)] + pairs.subrange(1, pairs.len() as int)
    } else {
        seq![pairs[0]] + upsert_spec(pairs.subrange(1, pairs.len() as int), k, v)
    }
}

proof fn lemma_upsert_advance(
    pairs: Seq<(Seq<char>, Seq<char>)>,
    k: Seq<char>,
    v: Seq<char>,
    i: int,
)
    requires
        0 <= i <= pairs.len(),
        forall|j: int| 0 <= j < i ==> (#[trigger] pairs[j]).0 != k,
    ensures
        upsert_spec(pairs, k, v) == pairs.subrange(0, i) + upsert_spec(
            pairs.subrange(i, pairs.len() as int),
            k,
            v,
        ),
    decreases i,
{
    if i == 0 {
        assert(pairs.subrange(0, pairs.len() as int) =~= pairs);
        assert(pairs.subrange(0, 0) + upsert_spec(pairs, k, v) =~= upsert_spec(pairs, k, v));
    } else {
        assert((pairs[0]).0 != k);
        let tail = pairs.subrange(1, pairs.len() as int);
        assert forall|j: int| 0 <= j < i - 1 implies (#[trigger] tail[j]).0 != k by {
            assert(tail[j] == pairs[j + 1]);
        }
        lemma_upsert_advance(tail, k, v, i - 1);
        assert(tail.subrange(i - 1, tail.len() as int) =~= pairs.subrange(i, pairs.len() as int));
        assert(seq![pairs[0]] + (tail.subrange(0, i - 1) + upsert_spec(
            pairs.subrange(i, pairs.len() as int),
            k,
            v,
        )) =~= pairs.subrange(0, i) + upsert_spec(pairs.subrange(i, pairs.len() as int), k, v));
    }
}

/// Sets one binding in an association list.
#[verifier::loop_isolation(false)]
fn upsert(pairs: Vec<(String, String)>, k: &String, v: &String) -> (r: Vec<(String, String)>)
    ensures
        r.deep_view() == upsert_spec(pairs.deep_view(), k@, v@),
{
    let ghost pairs_view = pairs.deep_view();
    let mut pairs = pairs;
    let mut i: usize = 0;
    while i < pairs.len()
        invariant
            i <= pairs@.len(),
            pairs_view == pairs.deep_view(),
            pairs@.len() == pairs_view.len(),
            forall|j: int| 0 <= j < i ==> (#[trigger] pairs_view[j]).0 != k@,
        decreases pairs@.len() - i,
    {
        assert(pairs_view[i as int] == (pairs@[i as int].0@, pairs@[i as int].1@));
        if pairs[i].0 == *k {
            proof {
                lemma_upsert_advance(pairs_view, k@, v@, i as int);
                let rest = pairs_view.subrange(i as int, pairs_view.len() as int);
                assert(rest[0] == pairs_view[i as int]);
                assert(rest.subrange(1, rest.len() as int) =~= pairs_view.subrange(
                    i + 1,
                    pairs_view.len() as int,
                ));
                assert(upsert_spec(rest, k@, v@) == seq![(k@, v@)] + rest.subrange(
                    1,
                    rest.len() as int,
                ));
            }
            let _ = pairs.remove(i);
            pairs.insert(i, (k.clone(), v.clone()));
            proof {
                assert(pairs.deep_view() =~~= pairs_view.subrange(0, i as int) + (seq![(k@, v@)]
                    + pairs_view.subrange(i + 1, pairs_view.len() as int)));
            }
            return pairs;
        }
        i = i + 1;
    }
    proof {
        lemma_upsert_advance(pairs_view, k@, v@, pairs_view.len() as int);
        assert(pairs_view.subrange(pairs_view.len() as int, pairs_view.len() as int) =~= Seq::<
            (Seq<char>, Seq<char>),
        >::empty());
    }
    pairs.push((k.clone(), v.clone()));
    proof {
        assert(pairs.deep_view() =~= pairs_view.subrange(0, pairs_view.len() as int) + seq![
            (k@, v@)
        ]);
    }
    pairs
}

/// Whether the segments are compatible with the schema: every literal
/// component equals its segment, over the zipped range (the shorter of the
/// two ends the comparison).
pub open spec fn match_ok_spec(comps: Seq<ComponentModel>, segs: Seq<Seq<char>>) -> bool {
    forall|j: int|
        0 <= j < comps.len() && j < segs.len() && (#[trigger] comps[j]) is Fixed ==> comps[j]->Fixed_0
            == segs[j]
}

/// The tag bindings the first `n` zipped positions capture: each placeholder
/// takes its segment, a repeated placeholder keeping the last capture.
pub open spec fn match_tags_upto(
    comps: Seq<ComponentModel>,
    segs: Seq<Seq<char>>,
    n: int,
) -> Seq<(Seq<char>, Seq<char>)>
    decreases n,
{
    if n <= 0 {
        Seq::empty()
    } else {
        let prev = match_tags_upto(comps, segs, n - 1);
        if comps[n - 1] is Tag {
            upsert_spec(prev, comps[n - 1]->Tag_0, segs[n - 1])
        } else {
            prev
        }
    }
}

/// The tag bindings a path captures against a schema.
pub open spec fn match_tags_spec(comps: Seq<ComponentModel>, segs: Seq<Seq<char>>) -> Seq<
    (Seq<char>, Seq<char>),
> {
    match_tags_upto(
        comps,
        segs,
        if comps.len() <= segs.len() {
            comps.len() as int
        } else {
            segs.len() as int
        },
    )
}

impl Schema {
    /// Matches a directory path against the schema: when the path lies under
    /// the base directory and every literal component agrees with its
    /// segment, the captured tag values are returned; the comparison zips
    /// the schema with the path's remaining segments and stops at the
    /// shorter of the two.
    #[verifier::loop_isolation(false)]
    pub fn match_with_dir(&self, path: &Vec<String>, base_path: &Vec<String>) -> (r: Option<
        Vec<(String, String)>,
    >)
        ensures
            (r is Some) == (is_seg_prefix(base_path.deep_view(), path.deep_view())
                && match_ok_spec(
                self@,
                path.deep_view().skip(base_path.deep_view().len() as int),
            )),
            r matches Some(m) ==> m.deep_view() == match_tags_spec(
                self@,
                path.deep_view().skip(base_path.deep_view().len() as int),
            ),
    {
        if !seg_prefix(base_path, path) {
            return None;
        }
        let ghost rel = path.deep_view().skip(base_path.deep_view().len() as int);
        let base_len = base_path.len();
        let rel_len = path.len() - base_len;
        let zip_len: usize = if self.components.len() <= rel_len {
            self.components.len()
        } else {
            rel_len
        };
        proof {
            assert(rel.len() == rel_len);
        }
        let mut tags: Vec<(String, String)> = Vec::new();
        let mut j: usize = 0;
        proof {
            assert(tags.deep_view() =~= match_tags_upto(self@, rel, 0));
        }
        while j < zip_len
            invariant
                j <= zip_len,
                tags.deep_view() == match_tags_upto(self@, rel, j as int),
                forall|q: int|
                    0 <= q < j && (#[trigger] self@[q]) is Fixed ==> self@[q]->Fixed_0 == rel[q],
            decreases zip_len - j,
        {
            assert(self@[j as int] == self.components@[j as int]@);
            let seg = &path[base_len + j];
            proof {
                assert(rel[j as int] == path.deep_view()[base_len + j]);
                assert(path.deep_view()[base_len + j] == path@[base_len + j]@);
            }
            match &self.components[j] {
                SchemaPathComponent::Fixed(f) => {
                    if *f != *seg {
                        proof {
                            assert(self@[j as int]->Fixed_0 != rel[j as int]);
                            assert(!match_ok_spec(self@, rel));
                        }
                        return None;
                    }
                },
                SchemaPathComponent::Tag(t) => {
                    tags = upsert(tags, t, seg);
                },
            }
            j = j + 1;
        }
        proof {
            assert(match_ok_spec(self@, rel));
        }
        Some(tags)
    }
}

} // verus!
