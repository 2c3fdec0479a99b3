//! Planning a factor computation over a prepared panel: which descriptor each
//! requested factor runs, which columns it reads, under which names its
//! outputs appear, and which window lengths the range cache must cover.
use vstd::prelude::*;
use vstd::string::StringExecFns;
use crate::column_store::{ensure_dtype, ensure_no_nulls, kind_matches, read_error, read_ok};
use crate::error::QFactorsError;
use crate::factor::{
    ColumnSpec, FactorDescriptor, ResolvedFactor, default_output_columns, output_names,
    strings_view,
};
use crate::frame::{
    Cell, ColumnData, ColumnView, cells_view, find_column, first_index, first_where, has_null,
    is_first, lemma_first_index, lemma_first_index_unique, lemma_first_where,
    lemma_first_where_none, lemma_first_where_some, str_eq,
};
use crate::compute_sink::MemorySink;
use crate::prepared_panel::{
    GROUP_ID_COL, PreparedObservation, PreparedPanel, frame_error, frame_refused,
    observation_error, observation_key_columns, observations_rejected, observations_resolved,
};

verus! {

/// The column that logical input `name` reads: the first alias entry for it,
/// or the name itself.
pub open spec fn alias_of(aliases: Seq<(String, String)>, name: Seq<char>) -> Seq<char> {
    match first_index(aliases, |p: (String, String)| p.0@ == name) {
        Some(i) => aliases[i].1@,
        None => name,
    }
}

/// The column that logical input `name` reads.
pub fn resolve_alias(aliases: &Vec<(String, String)>, name: &str) -> (r: String)
    ensures
        r@ == alias_of(aliases@, name@),
{
    let ghost p = |q: (String, String)| q.0@ == name@;
    let mut i: usize = 0;
    while i < aliases.len()
        invariant
            i <= aliases.len(),
            p == (|q: (String, String)| q.0@ == name@),
            forall|j: int| 0 <= j < i ==> !p(#[trigger] aliases@[j]),
        decreases aliases.len() - i,
    {
        if str_eq(aliases[i].0.as_str(), name) {
            proof {
                assert(is_first(aliases@, p, i as int));
                lemma_first_index_unique(aliases@, p, i as int);
            }
            return aliases[i].1.clone();
        }
        i = i + 1;
    }
    proof {
        lemma_first_index(aliases@, p);
    }
    <String as StringExecFns>::from_str(name)
}

/// Descriptor `j` carries the name of an earlier one.
pub open spec fn repeats_name(descs: Seq<FactorDescriptor>, j: int) -> bool {
    exists|i: int| 0 <= i < j && #[trigger] descs[i].factor_name@ == descs[j].factor_name@
}

/// The first descriptor whose name an earlier one already carries.
pub open spec fn first_repeated_descriptor(descs: Seq<FactorDescriptor>) -> Option<int> {
    first_where(descs.len(), |j: int| repeats_name(descs, j))
}

/// Rejects a descriptor list in which two descriptors share a name.
#[verifier::loop_isolation(false)]
pub fn check_descriptor_names(descriptors: &[FactorDescriptor]) -> (r: Result<(), QFactorsError>)
    ensures
        first_repeated_descriptor(descriptors@) is None ==> r is Ok,
        first_repeated_descriptor(descriptors@) matches Some(j) ==> (r matches Err(
            QFactorsError::OutputColumnConflict(n),
        ) && n@ == descriptors@[j].factor_name@),
{
    let ghost d = descriptors@;
    let ghost p = |j: int| repeats_name(d, j);
    let mut j: usize = 0;
    while j < descriptors.len()
        invariant
            d == descriptors@,
            p == (|j: int| repeats_name(d, j)),
            j <= descriptors.len(),
            forall|k: int| 0 <= k < j ==> !#[trigger] p(k),
        decreases descriptors.len() - j,
    {
        let mut i: usize = 0;
        while i < j
            invariant
                d == descriptors@,
                j < descriptors.len(),
                i <= j,
                forall|k: int| 0 <= k < i ==> #[trigger] d[k].factor_name@ != d[j as int].factor_name@,
            decreases j - i,
        {
            if str_eq(descriptors[i].factor_name, descriptors[j].factor_name) {
                proof {
                    assert(d[i as int].factor_name@ == d[j as int].factor_name@);
                    assert(repeats_name(d, j as int));
                    lemma_first_where_some(d.len(), p, j as int);
                }
                return Err(
                    QFactorsError::OutputColumnConflict(
                        <String as StringExecFns>::from_str(descriptors[j].factor_name),
                    ),
                );
            }
            i = i + 1;
        }
        j = j + 1;
    }
    proof {
        lemma_first_where_none(d.len(), p);
    }
    Ok(())
}

/// The descriptor registered under `name`.
pub open spec fn descriptor_for(descs: Seq<FactorDescriptor>, name: Seq<char>) -> Option<int> {
    first_index(descs, |d: FactorDescriptor| d.factor_name@ == name)
}

/// The position of the descriptor registered under `name`.
pub fn find_descriptor(descriptors: &[FactorDescriptor], name: &str) -> (r: Option<usize>)
    ensures
        r matches Some(i) ==> descriptor_for(descriptors@, name@) == Some(i as int),
        r is None ==> descriptor_for(descriptors@, name@) is None,
{
    let ghost p = |d: FactorDescriptor| d.factor_name@ == name@;
    let mut i: usize = 0;
    while i < descriptors.len()
        invariant
            i <= descriptors.len(),
            p == (|d: FactorDescriptor| d.factor_name@ == name@),
            forall|j: int| 0 <= j < i ==> !p(#[trigger] descriptors@[j]),
        decreases descriptors.len() - i,
    {
        if str_eq(descriptors[i].factor_name, name) {
            proof {
                assert(is_first(descriptors@, p, i as int));
                lemma_first_index_unique(descriptors@, p, i as int);
            }
            return Some(i);
        }
        i = i + 1;
    }
    proof {
        lemma_first_index(descriptors@, p);
    }
    None
}

/// An output name that the panel's own columns already use.
pub open spec fn reserved_output(panel: PreparedPanel, n: Seq<char>) -> bool {
    n == panel.spec_time_col() || n == panel.spec_group_col() || (panel.spec_output_group_id()
        && n == GROUP_ID_COL@)
}

/// An output name that cannot be claimed once the names in `seen` are taken.
pub open spec fn output_taken(panel: PreparedPanel, seen: Seq<Seq<char>>, n: Seq<char>) -> bool {
    reserved_output(panel, n) || seen.contains(n)
}

/// Whether `name` is among `seen`.
fn contains_name(seen: &Vec<String>, name: &str) -> (r: bool)
    ensures
        r == strings_view(seen@).contains(name@),
{
    let mut i: usize = 0;
    while i < seen.len()
        invariant
            i <= seen.len(),
            forall|j: int| 0 <= j < i ==> #[trigger] seen@[j]@ != name@,
        decreases seen.len() - i,
    {
        if str_eq(seen[i].as_str(), name) {
            proof {
                assert(strings_view(seen@)[i as int] == name@);
            }
            return true;
        }
        i = i + 1;
    }
    proof {
        if strings_view(seen@).contains(name@) {
            let j = choose|j: int| 0 <= j < seen.len() && strings_view(seen@)[j] == name@;
            assert(seen@[j]@ == name@);
        }
    }
    false
}

/// Claims output name `name`, refusing one that a panel column or an earlier
/// output already uses.
pub fn ensure_output_name_available(panel: &PreparedPanel, seen: &mut Vec<String>, name: &str) -> (r:
    Result<(), QFactorsError>)
    ensures
        output_taken(*panel, strings_view(old(seen)@), name@) ==> (r matches Err(
            QFactorsError::OutputColumnConflict(n),
        ) && n@ == name@ && final(seen)@ == old(seen)@),
        !output_taken(*panel, strings_view(old(seen)@), name@) ==> (r is Ok && strings_view(
            final(seen)@,
        ) == strings_view(old(seen)@).push(name@)),
{
    if str_eq(name, panel.time_col()) || str_eq(name, panel.group_col()) || (
    panel.output_group_id() && str_eq(name, GROUP_ID_COL)) || contains_name(seen, name) {
        return Err(QFactorsError::OutputColumnConflict(<String as StringExecFns>::from_str(name)));
    }
    seen.push(<String as StringExecFns>::from_str(name));
    proof {
        assert(strings_view(final(seen)@) =~= strings_view(old(seen)@).push(name@));
    }
    Ok(())
}

/// The first input of `desc` that cannot be read from the panel.
pub open spec fn unreadable_input(panel: PreparedPanel, desc: FactorDescriptor) -> Option<int> {
    first_index(
        desc.inputs@,
        |c: ColumnSpec| !read_ok(panel.frame(), alias_of(panel.spec_aliases(), c.name@), c.dtype),
    )
}

/// The columns a factor reads, input by input.
pub open spec fn input_columns_of(panel: PreparedPanel, desc: FactorDescriptor) -> Seq<Seq<char>> {
    desc.inputs@.map_values(|c: ColumnSpec| alias_of(panel.spec_aliases(), c.name@))
}

/// The first of `outs` that cannot be claimed once `seen` and the outputs
/// before it are taken.
pub open spec fn first_taken(panel: PreparedPanel, seen: Seq<Seq<char>>, outs: Seq<Seq<char>>) -> Option<
    int,
> {
    first_where(outs.len(), |k: int| output_taken(panel, seen + outs.take(k), outs[k]))
}

/// Why a list of factor names cannot be resolved.
pub enum ResolveFailure {
    /// Two descriptors share the name of the one at this position.
    DuplicateDescriptor(int),
    UnknownFactor(Seq<char>),
    /// The descriptor at this position has window zero.
    InvalidWindow(int),
    /// Input `.1` of the descriptor at position `.0` cannot be read.
    Unreadable(int, int),
    OutputConflict(Seq<char>),
}

/// Resolving factor `name` once the output names `seen` are taken: the
/// output names it claims, or why it fails.
pub open spec fn factor_step(
    panel: PreparedPanel,
    descs: Seq<FactorDescriptor>,
    name: Seq<char>,
    seen: Seq<Seq<char>>,
) -> Result<Seq<Seq<char>>, ResolveFailure> {
    match descriptor_for(descs, name) {
        None => Err(ResolveFailure::UnknownFactor(name)),
        Some(di) => if descs[di].window == 0 {
            Err(ResolveFailure::InvalidWindow(di))
        } else {
            match unreadable_input(panel, descs[di]) {
                Some(k) => Err(ResolveFailure::Unreadable(di, k)),
                None => match first_taken(panel, seen, output_names(descs[di])) {
                    Some(k) => Err(ResolveFailure::OutputConflict(output_names(descs[di])[k])),
                    None => Ok(output_names(descs[di])),
                },
            }
        },
    }
}

/// Resolving `names` in order: all output names claimed, or the first failure.
pub open spec fn resolve_names(
    panel: PreparedPanel,
    descs: Seq<FactorDescriptor>,
    names: Seq<Seq<char>>,
) -> Result<Seq<Seq<char>>, ResolveFailure>
    decreases names.len(),
{
    if names.len() == 0 {
        Ok(Seq::empty())
    } else {
        match resolve_names(panel, descs, names.drop_last()) {
            Err(f) => Err(f),
            Ok(seen) => match factor_step(panel, descs, names.last(), seen) {
                Err(f) => Err(f),
                Ok(outs) => Ok(seen + outs),
            },
        }
    }
}

/// The first reason `names` cannot be resolved against `descs`, if any.
pub open spec fn resolve_failure(
    panel: PreparedPanel,
    descs: Seq<FactorDescriptor>,
    names: Seq<Seq<char>>,
) -> Option<ResolveFailure> {
    match first_repeated_descriptor(descs) {
        Some(j) => Some(ResolveFailure::DuplicateDescriptor(j)),
        None => match resolve_names(panel, descs, names) {
            Err(f) => Some(f),
            Ok(_) => None,
        },
    }
}

/// `e` is the error that reports failure `f`.
pub open spec fn resolve_error(
    e: QFactorsError,
    f: ResolveFailure,
    panel: PreparedPanel,
    descs: Seq<FactorDescriptor>,
) -> bool {
    match f {
        ResolveFailure::DuplicateDescriptor(j) => e matches QFactorsError::OutputColumnConflict(n)
            && n@ == descs[j].factor_name@,
        ResolveFailure::UnknownFactor(n) => e matches QFactorsError::UnknownFactor(m) && m@ == n,
        ResolveFailure::InvalidWindow(di) => e matches QFactorsError::InvalidWindow {
            factor_name,
            window,
        } && factor_name@ == descs[di].factor_name@ && window == 0,
        ResolveFailure::Unreadable(di, k) => read_error(
            panel.frame(),
            alias_of(panel.spec_aliases(), descs[di].inputs@[k].name@),
            descs[di].inputs@[k].dtype,
            e,
        ),
        ResolveFailure::OutputConflict(n) => e matches QFactorsError::OutputColumnConflict(m) && m@
            == n,
    }
}

/// `rf` is factor `name` bound to the panel: its descriptor, the columns its
/// inputs read and its output names.
pub open spec fn resolved_as(
    panel: PreparedPanel,
    descs: Seq<FactorDescriptor>,
    name: Seq<char>,
    rf: ResolvedFactor,
) -> bool {
    &&& descriptor_for(descs, name) is Some
    &&& rf.desc == descs[descriptor_for(descs, name).unwrap()]
    &&& rf.desc.window > 0
    &&& strings_view(rf.input_columns@) == input_columns_of(panel, rf.desc)
    &&& strings_view(rf.output_columns@) == output_names(rf.desc)
}

/// A failure while resolving a prefix of the names is the failure of the whole.
proof fn lemma_resolve_failed_prefix(
    panel: PreparedPanel,
    descs: Seq<FactorDescriptor>,
    names: Seq<Seq<char>>,
    k: int,
)
    requires
        0 <= k <= names.len(),
        resolve_names(panel, descs, names.take(k)) is Err,
    ensures
        resolve_names(panel, descs, names) == resolve_names(panel, descs, names.take(k)),
    decreases names.len() - k,
{
    if k < names.len() {
        assert(names.take(k + 1).drop_last() =~= names.take(k));
        lemma_resolve_failed_prefix(panel, descs, names, k + 1);
    } else {
        assert(names.take(k) =~= names);
    }
}

/// Binds each requested factor to its descriptor and to the panel's columns,
/// refusing unknown factors, zero windows, unreadable inputs and output names
/// that clash.
#[verifier::loop_isolation(false)]
pub fn resolve_factors(
    panel: &PreparedPanel,
    descriptors: &[FactorDescriptor],
    factor_names: &Vec<String>,
) -> (r: Result<Vec<ResolvedFactor>, QFactorsError>)
    ensures
        resolve_failure(*panel, descriptors@, strings_view(factor_names@)) matches Some(f) ==> (
        r matches Err(e) && resolve_error(e, f, *panel, descriptors@)),
        resolve_failure(*panel, descriptors@, strings_view(factor_names@)) is None ==> (r matches Ok(
            v,
        ) && v.len() == factor_names.len() && forall|i: int|
            0 <= i < v.len() ==> resolved_as(
                *panel,
                descriptors@,
                factor_names@[i]@,
                #[trigger] v@[i],
            )),
{
    match check_descriptor_names(descriptors) {
        Ok(()) => {},
        Err(e) => return Err(e),
    }
    let ghost names = strings_view(factor_names@);
    let ghost descs = descriptors@;
    let ghost aliases = panel.spec_aliases();
    let mut seen: Vec<String> = Vec::new();
    let mut resolved: Vec<ResolvedFactor> = Vec::new();
    let mut i: usize = 0;
    proof {
        assert(names.take(0) =~= Seq::<Seq<char>>::empty());
        assert(strings_view(seen@) =~= Seq::<Seq<char>>::empty());
    }
    while i < factor_names.len()
        invariant
            i <= factor_names.len(),
            resolve_names(*panel, descs, names.take(i as int)) == Ok::<
                Seq<Seq<char>>,
                ResolveFailure,
            >(strings_view(seen@)),
            resolved.len() == i,
            forall|a: int|
                0 <= a < i ==> resolved_as(*panel, descs, names[a], #[trigger] resolved@[a]),
        decreases factor_names.len() - i,
    {
        let ghost seen0 = strings_view(seen@);
        proof {
            assert(names.take(i + 1).drop_last() =~= names.take(i as int));
            assert(names.take(i + 1).last() == names[i as int]);
            assert(names[i as int] == factor_names@[i as int]@);
        }
        let name = factor_names[i].as_str();
        let di = match find_descriptor(descriptors, name) {
            Some(d) => d,
            None => {
                proof {
                    lemma_resolve_failed_prefix(*panel, descs, names, i + 1);
                }
                return Err(QFactorsError::UnknownFactor(factor_names[i].clone()));
            },
        };
        let desc = descriptors[di];
        if desc.window == 0 {
            proof {
                lemma_resolve_failed_prefix(*panel, descs, names, i + 1);
            }
            return Err(
                QFactorsError::InvalidWindow { factor_name: desc.factor_name, window: desc.window },
            );
        }
        let ghost readable = |c: ColumnSpec|
            !read_ok(panel.frame(), alias_of(aliases, c.name@), c.dtype);
        let mut inputs: Vec<String> = Vec::new();
        let mut k: usize = 0;
        while k < desc.inputs.len()
            invariant
                k <= desc.inputs.len(),
                inputs.len() == k,
                forall|a: int|
                    0 <= a < k ==> #[trigger] inputs@[a]@ == alias_of(aliases, desc.inputs@[a].name@),
                forall|a: int| 0 <= a < k ==> !readable(#[trigger] desc.inputs@[a]),
            decreases desc.inputs.len() - k,
        {
            let input = desc.inputs[k];
            let column_name = resolve_alias(panel.column_aliases(), input.name);
            match crate::column_store::readable_column(
                panel.dataframe(),
                column_name.as_str(),
                input.dtype,
            ) {
                Ok(_) => {},
                Err(e) => {
                    proof {
                        assert(is_first(desc.inputs@, readable, k as int));
                        lemma_first_index_unique(desc.inputs@, readable, k as int);
                        lemma_resolve_failed_prefix(*panel, descs, names, i + 1);
                    }
                    return Err(e);
                },
            }
            inputs.push(column_name);
            k = k + 1;
        }
        proof {
            lemma_first_index(desc.inputs@, readable);
            assert(strings_view(inputs@) =~= input_columns_of(*panel, desc));
        }
        let outputs = default_output_columns(&desc);
        let ghost outs = output_names(desc);
        let ghost taken = |o: int| output_taken(*panel, seen0 + outs.take(o), outs[o]);
        let mut o: usize = 0;
        proof {
            assert(outs.take(0) =~= Seq::<Seq<char>>::empty());
            assert(seen0 + outs.take(0) =~= seen0);
        }
        while o < outputs.len()
            invariant
                o <= outputs.len(),
                strings_view(outputs@) == outs,
                strings_view(seen@) == seen0 + outs.take(o as int),
                forall|a: int| 0 <= a < o ==> !#[trigger] taken(a),
            decreases outputs.len() - o,
        {
            proof {
                assert(outputs@[o as int]@ == outs[o as int]);
            }
            match ensure_output_name_available(panel, &mut seen, outputs[o].as_str()) {
                Ok(()) => {},
                Err(e) => {
                    proof {
                        assert(taken(o as int));
                        lemma_first_where_some(outs.len(), taken, o as int);
                        lemma_resolve_failed_prefix(*panel, descs, names, i + 1);
                    }
                    return Err(e);
                },
            }
            proof {
                assert(outs.take(o + 1) =~= outs.take(o as int).push(outs[o as int]));
                assert(seen0 + outs.take(o + 1) =~= (seen0 + outs.take(o as int)).push(outs[o as int]));
            }
            o = o + 1;
        }
        proof {
            lemma_first_where_none(outs.len(), taken);
            assert(outs.take(outs.len() as int) =~= outs);
        }
        resolved.push(ResolvedFactor { desc, input_columns: inputs, output_columns: outputs });
        i = i + 1;
    }
    proof {
        assert(names.take(names.len() as int) =~= names);
        assert forall|a: int| 0 <= a < resolved.len() implies resolved_as(
            *panel,
            descs,
            factor_names@[a]@,
            #[trigger] resolved@[a],
        ) by {
            assert(names[a] == factor_names@[a]@);
        }
    }
    Ok(resolved)
}

/// Strictly increasing.
pub open spec fn sorted_distinct(w: Seq<usize>) -> bool {
    forall|a: int, b: int| 0 <= a < b < w.len() ==> w[a] < w[b]
}

/// Some factor among the first `k` has window `x`.
pub open spec fn window_used(factors: Seq<ResolvedFactor>, k: int, x: usize) -> bool {
    exists|i: int| 0 <= i < k && #[trigger] factors[i].desc.window == x
}

/// The first factor whose window is zero.
pub open spec fn first_zero_window(factors: Seq<ResolvedFactor>) -> Option<int> {
    first_where(factors.len(), |i: int| factors[i].desc.window == 0)
}

/// The distinct window lengths of the factors, increasing; a zero window is refused.
#[verifier::loop_isolation(false)]
pub fn collect_distinct_windows(factors: &Vec<ResolvedFactor>) -> (r: Result<Vec<usize>, QFactorsError>)
    ensures
        first_zero_window(factors@) matches Some(i) ==> (r matches Err(
            QFactorsError::InvalidWindow { factor_name, window },
        ) && factor_name@ == factors@[i].desc.factor_name@ && window == 0),
        first_zero_window(factors@) is None ==> (r matches Ok(w) && sorted_distinct(w@) && forall|x: usize|
            #[trigger] w@.contains(x) <==> window_used(factors@, factors.len() as int, x)),
{
    let ghost fs = factors@;
    let ghost zero = |i: int| fs[i].desc.window == 0;
    let mut i: usize = 0;
    while i < factors.len()
        invariant
            i <= factors.len(),
            forall|j: int| 0 <= j < i ==> !#[trigger] zero(j),
        decreases factors.len() - i,
    {
        if factors[i].desc.window == 0 {
            proof {
                lemma_first_where_some(fs.len(), zero, i as int);
            }
            return Err(
                QFactorsError::InvalidWindow {
                    factor_name: factors[i].desc.factor_name,
                    window: factors[i].desc.window,
                },
            );
        }
        i = i + 1;
    }
    proof {
        lemma_first_where_none(fs.len(), zero);
    }
    let mut w: Vec<usize> = Vec::new();
    let mut k: usize = 0;
    while k < factors.len()
        invariant
            k <= factors.len(),
            sorted_distinct(w@),
            forall|x: usize| #[trigger] w@.contains(x) <==> window_used(fs, k as int, x),
        decreases factors.len() - k,
    {
        let x = factors[k].desc.window;
        let mut p: usize = 0;
        while p < w.len() && w[p] < x
            invariant
                p <= w.len(),
                forall|a: int| 0 <= a < p ==> w@[a] < x,
            decreases w.len() - p,
        {
            p = p + 1;
        }
        let ghost old_w = w@;
        if p < w.len() && w[p] == x {
        } else {
            w.insert(p, x);
            proof {
                assert forall|a: int, b: int| 0 <= a < b < w@.len() implies w@[a] < w@[b] by {
                    if b < p {
                        assert(w@[a] == old_w[a] && w@[b] == old_w[b]);
                    } else if b == p {
                        assert(w@[a] == old_w[a]);
                    } else if a < p {
                        assert(w@[a] == old_w[a] && w@[b] == old_w[b - 1]);
                        assert(old_w[b - 1] >= x);
                    } else if a == p {
                        assert(w@[b] == old_w[b - 1]);
                        assert(old_w[p as int] >= x);
                        assert(old_w[p as int] != x);
                        if b - 1 > p {
                            assert(old_w[p as int] < old_w[b - 1]);
                        }
                    } else {
                        assert(w@[a] == old_w[a - 1] && w@[b] == old_w[b - 1]);
                    }
                }
            }
        }
        proof {
            assert forall|y: usize| #[trigger] w@.contains(y) <==> window_used(fs, k + 1, y) by {
                if w@.contains(y) {
                    let a = choose|a: int| 0 <= a < w@.len() && w@[a] == y;
                    if y == x {
                        assert(fs[k as int].desc.window == y);
                    } else if old_w.len() == w@.len() {
                        assert(old_w.contains(y));
                        let i0 = choose|i0: int| 0 <= i0 < k && #[trigger] fs[i0].desc.window == y;
                        assert(fs[i0].desc.window == y);
                    } else {
                        if a < p {
                            assert(w@[a] == old_w[a]);
                        } else {
                            assert(w@[a] == old_w[a - 1]);
                        }
                        assert(old_w.contains(y));
                        let i0 = choose|i0: int| 0 <= i0 < k && #[trigger] fs[i0].desc.window == y;
                        assert(fs[i0].desc.window == y);
                    }
                }
                if window_used(fs, k + 1, y) {
                    let i0 = choose|i0: int| 0 <= i0 < k + 1 && #[trigger] fs[i0].desc.window == y;
                    if i0 == k {
                        if old_w.len() == w@.len() {
                            assert(w@[p as int] == y);
                        } else {
                            assert(w@[p as int] == y);
                        }
                    } else {
                        assert(window_used(fs, k as int, y));
                        assert(old_w.contains(y));
                        let a = choose|a: int| 0 <= a < old_w.len() && old_w[a] == y;
                        if old_w.len() == w@.len() {
                            assert(w@[a] == y);
                        } else if a < p {
                            assert(w@[a] == y);
                        } else {
                            assert(w@[a + 1] == y);
                        }
                    }
                }
            }
        }
        k = k + 1;
    }
    Ok(w)
}

/// What is wrong with the columns a factor computed.
pub enum OutputFault {
    /// Not one column per output.
    Count,
    /// Column `i` does not hold one value per group.
    Length(int),
    /// Column `i` is not named after output `i`.
    Name(int),
}

/// Column `i` of `result` is faulty: wrong length or wrong name.
pub open spec fn column_faulty(n_groups: int, expected: Seq<Seq<char>>, result: Seq<ColumnView>, i: int) -> bool {
    result[i].cells.len() != n_groups || result[i].name != expected[i]
}

/// The first fault of `result`, checked column by column, if any.
pub open spec fn output_fault(n_groups: int, expected: Seq<Seq<char>>, result: Seq<ColumnView>) -> Option<
    OutputFault,
> {
    if result.len() != expected.len() {
        Some(OutputFault::Count)
    } else {
        match first_where(result.len(), |i: int| column_faulty(n_groups, expected, result, i)) {
            Some(i) => if result[i].cells.len() != n_groups {
                Some(OutputFault::Length(i))
            } else {
                Some(OutputFault::Name(i))
            },
            None => None,
        }
    }
}

/// `e` is the error that reports fault `f` of `result` for `factor`.
pub open spec fn output_error(
    e: QFactorsError,
    f: OutputFault,
    factor: ResolvedFactor,
    n_groups: int,
    result: Seq<ColumnView>,
) -> bool {
    let expected = strings_view(factor.output_columns@);
    match f {
        OutputFault::Count => e matches QFactorsError::FactorOutputCount {
            factor_name,
            expected: n,
            actual,
        } && factor_name@ == factor.desc.factor_name@ && n == expected.len() && actual
            == result.len(),
        OutputFault::Length(i) => e matches QFactorsError::FactorOutputLength {
            factor_name,
            column,
            expected: n,
            actual,
        } && factor_name@ == factor.desc.factor_name@ && column@ == result[i].name && n == n_groups
            && actual == result[i].cells.len(),
        OutputFault::Name(i) => e matches QFactorsError::FactorOutputName {
            factor_name,
            expected: x,
            actual,
        } && factor_name@ == factor.desc.factor_name@ && x@ == expected[i] && actual@
            == result[i].name,
    }
}

/// Checks that a factor produced one column per output, each holding one
/// value per group and named after its output.
#[verifier::loop_isolation(false)]
pub fn validate_factor_result(
    panel: &PreparedPanel,
    factor: &ResolvedFactor,
    result: &Vec<ColumnData>,
) -> (r: Result<(), QFactorsError>)
    ensures
        output_fault(
            panel.spec_groups().len() as int,
            strings_view(factor.output_columns@),
            result@.map_values(|c: ColumnData| c@),
        ) matches Some(f) ==> (r matches Err(e) && output_error(
            e,
            f,
            *factor,
            panel.spec_groups().len() as int,
            result@.map_values(|c: ColumnData| c@),
        )),
        output_fault(
            panel.spec_groups().len() as int,
            strings_view(factor.output_columns@),
            result@.map_values(|c: ColumnData| c@),
        ) is None ==> r is Ok,
{
    let ghost res = result@.map_values(|c: ColumnData| c@);
    let ghost expected = strings_view(factor.output_columns@);
    let n_groups = panel.groups().len();
    if result.len() != factor.output_columns.len() {
        return Err(
            QFactorsError::FactorOutputCount {
                factor_name: factor.desc.factor_name,
                expected: factor.output_columns.len(),
                actual: result.len(),
            },
        );
    }
    let ghost faulty = |i: int| column_faulty(n_groups as int, expected, res, i);
    let mut i: usize = 0;
    while i < result.len()
        invariant
            i <= result.len(),
            forall|j: int| 0 <= j < i ==> !#[trigger] faulty(j),
        decreases result.len() - i,
    {
        proof {
            assert(res[i as int] == result@[i as int]@);
            assert(expected[i as int] == factor.output_columns@[i as int]@);
        }
        if result[i].cells.len() != n_groups {
            proof {
                lemma_first_where_some(res.len(), faulty, i as int);
            }
            return Err(
                QFactorsError::FactorOutputLength {
                    factor_name: factor.desc.factor_name,
                    column: result[i].name.clone(),
                    expected: n_groups,
                    actual: result[i].cells.len(),
                },
            );
        }
        if !str_eq(result[i].name.as_str(), factor.output_columns[i].as_str()) {
            proof {
                lemma_first_where_some(res.len(), faulty, i as int);
            }
            return Err(
                QFactorsError::FactorOutputName {
                    factor_name: factor.desc.factor_name,
                    expected: factor.output_columns[i].clone(),
                    actual: result[i].name.clone(),
                },
            );
        }
        i = i + 1;
    }
    proof {
        lemma_first_where_none(res.len(), faulty);
    }
    Ok(())
}

/// What a factor computation over a panel runs: the resolved factors, the
/// window lengths to cache ranges for, and the observation times.
#[derive(Debug)]
pub struct ComputePlan {
    pub resolved: Vec<ResolvedFactor>,
    pub windows: Vec<usize>,
    pub observations: Vec<PreparedObservation>,
}

/// Plans `compute_panel`: only in-memory output is supported; then the
/// factors are resolved, their windows collected and the observation times
/// matched against the panel, each step refusing as described there.
pub fn plan_compute_panel(
    panel: &PreparedPanel,
    observation_times: Vec<Cell>,
    factor_names: &Vec<String>,
    output_path: Option<&str>,
    descriptors: &[FactorDescriptor],
) -> (r: Result<ComputePlan, QFactorsError>)
    requires
        panel.wf(),
    ensures
        output_path is Some ==> r matches Err(QFactorsError::UnsupportedOutputPath),
        output_path is None ==> match resolve_failure(
            *panel,
            descriptors@,
            strings_view(factor_names@),
        ) {
            Some(f) => r matches Err(e) && resolve_error(e, f, *panel, descriptors@),
            None => if observations_rejected(cells_view(observation_times@)) {
                r matches Err(e) && observation_error(cells_view(observation_times@), e)
            } else {
                r matches Ok(plan) && plan.resolved.len() == factor_names.len() && (forall|i: int|
                    0 <= i < plan.resolved.len() ==> resolved_as(
                        *panel,
                        descriptors@,
                        factor_names@[i]@,
                        #[trigger] plan.resolved@[i],
                    )) && sorted_distinct(plan.windows@) && (forall|x: usize|
                    #[trigger] plan.windows@.contains(x) <==> window_used(
                        plan.resolved@,
                        plan.resolved.len() as int,
                        x,
                    )) && observations_resolved(
                    *panel,
                    cells_view(observation_times@),
                    plan.observations@,
                )
            },
        },
{
    if output_path.is_some() {
        return Err(QFactorsError::UnsupportedOutputPath);
    }
    let resolved = match resolve_factors(panel, descriptors, factor_names) {
        Ok(v) => v,
        Err(e) => return Err(e),
    };
    proof {
        assert forall|j: int| 0 <= j < resolved.len() implies !(#[trigger] resolved@[j].desc.window
            == 0) by {
            assert(resolved_as(*panel, descriptors@, factor_names@[j]@, resolved@[j]));
        }
        lemma_first_where_none(resolved@.len(), |i: int| resolved@[i].desc.window == 0);
    }
    let windows = match collect_distinct_windows(&resolved) {
        Ok(w) => w,
        Err(e) => return Err(e),
    };
    let observations = match panel.resolve_observation_times(observation_times) {
        Ok(v) => v,
        Err(e) => return Err(e),
    };
    Ok(ComputePlan { resolved, windows, observations })
}

/// A copy of a column.
fn copy_column(c: &ColumnData) -> (r: ColumnData)
    ensures
        r@ == c@,
{
    let mut cells: Vec<Cell> = Vec::new();
    crate::frame::extend_cells(&mut cells, &c.cells);
    let r = ColumnData { name: c.name.clone(), kind: crate::frame::copy_kind(&c.kind), cells };
    assert(r@.cells =~= c@.cells);
    r
}

/// The views of a list of columns.
pub open spec fn columns_view(v: Vec<ColumnData>) -> Seq<ColumnView> {
    v@.map_values(|c: ColumnData| c@)
}

/// The columns of the per-factor results, in factor order.
pub open spec fn result_columns(results: Seq<Vec<ColumnData>>) -> Seq<ColumnView> {
    results.map_values(|v: Vec<ColumnData>| columns_view(v)).flatten()
}

/// The first factor whose computed columns are faulty.
pub open spec fn first_faulty_result(
    panel: PreparedPanel,
    resolved: Seq<ResolvedFactor>,
    results: Seq<Vec<ColumnData>>,
) -> Option<int> {
    first_where(
        resolved.len(),
        |k: int|
            output_fault(
                panel.spec_groups().len() as int,
                strings_view(resolved[k].output_columns@),
                columns_view(results[k]),
            ) is Some,
    )
}

/// Checks the columns each factor computed for one observation, assembles
/// that observation's table and writes it to the sink; on a refusal the sink
/// is left as it was.
#[verifier::loop_isolation(false)]
pub fn record_observation(
    panel: &PreparedPanel,
    resolved: &Vec<ResolvedFactor>,
    observation: &PreparedObservation,
    results: Vec<Vec<ColumnData>>,
    sink: &mut MemorySink,
) -> (r: Result<(), QFactorsError>)
    requires
        panel.wf(),
        results.len() == resolved.len(),
    ensures
        first_faulty_result(*panel, resolved@, results@) matches Some(k) ==> (r matches Err(e)
            && output_error(
            e,
            output_fault(
                panel.spec_groups().len() as int,
                strings_view(resolved@[k].output_columns@),
                columns_view(results@[k]),
            ).unwrap(),
            resolved@[k],
            panel.spec_groups().len() as int,
            columns_view(results@[k]),
        ) && final(sink).spec_frames() == old(sink).spec_frames()),
        first_faulty_result(*panel, resolved@, results@) is None ==> ({
            let cols = observation_key_columns(*panel, observation.value@) + result_columns(results@);
            &&& frame_refused(cols, panel.spec_groups().len()) ==> (r matches Err(e) && frame_error(
                cols,
                panel.spec_groups().len(),
                e,
            ) && final(sink).spec_frames() == old(sink).spec_frames())
            &&& !frame_refused(cols, panel.spec_groups().len()) ==> (r is Ok
                && final(sink).spec_frames() == old(sink).spec_frames().push(cols))
        }),
{
    let ghost ng = panel.spec_groups().len() as int;
    let ghost faulty = |k: int|
        output_fault(
            ng,
            strings_view(resolved@[k].output_columns@),
            columns_view(results@[k]),
        ) is Some;
    let mut k: usize = 0;
    while k < resolved.len()
        invariant
            k <= resolved.len(),
            forall|j: int| 0 <= j < k ==> !#[trigger] faulty(j),
        decreases resolved.len() - k,
    {
        match validate_factor_result(panel, &resolved[k], &results[k]) {
            Ok(()) => {},
            Err(e) => {
                proof {
                    lemma_first_where_some(resolved@.len(), faulty, k as int);
                }
                return Err(e);
            },
        }
        k = k + 1;
    }
    proof {
        lemma_first_where_none(resolved@.len(), faulty);
    }
    let ghost per = results@.map_values(|v: Vec<ColumnData>| columns_view(v));
    let mut columns: Vec<ColumnData> = Vec::new();
    let mut a: usize = 0;
    proof {
        assert(per.take(0).flatten() =~= Seq::<ColumnView>::empty());
        assert(columns_view(columns) =~= Seq::<ColumnView>::empty());
    }
    while a < results.len()
        invariant
            a <= results.len(),
            per == results@.map_values(|v: Vec<ColumnData>| columns_view(v)),
            columns_view(columns) == per.take(a as int).flatten(),
        decreases results.len() - a,
    {
        let ghost before = columns_view(columns);
        let mut b: usize = 0;
        while b < results[a].len()
            invariant
                a < results.len(),
                b <= results@[a as int].len(),
                columns_view(columns) == before + columns_view(results@[a as int]).take(b as int),
            decreases results@[a as int].len() - b,
        {
            let ghost mid = columns_view(columns);
            let c = copy_column(&results[a][b]);
            columns.push(c);
            proof {
                assert(columns_view(columns) =~= mid.push(results@[a as int]@[b as int]@));
                assert(columns_view(results@[a as int]).take(b + 1) =~= columns_view(
                    results@[a as int],
                ).take(b as int).push(results@[a as int]@[b as int]@));
            }
            b = b + 1;
        }
        proof {
            assert(columns_view(results@[a as int]).take(results@[a as int].len() as int)
                =~= columns_view(results@[a as int]));
            assert(per.take(a + 1) =~= per.take(a as int).push(per[a as int]));
            per.take(a as int).lemma_flatten_push(per[a as int]);
        }
        a = a + 1;
    }
    proof {
        assert(per.take(results.len() as int) =~= per);
    }
    let frame = match panel.build_observation_frame(observation, columns) {
        Ok(f) => f,
        Err(e) => return Err(e),
    };
    sink.write_observation(frame);
    Ok(())
}

/// Every resolved factor finds its window among the planned windows, so an
/// observation's range cache built from them holds ranges for it: looking a
/// resolved factor's window up in that cache never fails.
pub proof fn lemma_plan_windows_cached(
    windows: Seq<usize>,
    resolved: Seq<ResolvedFactor>,
    cached: Map<usize, Vec<Option<std::ops::Range<usize>>>>,
    k: int,
)
    requires
        forall|x: usize| #[trigger] windows.contains(x) <==> window_used(resolved, resolved.len() as int, x),
        forall|w: usize| #[trigger] cached.contains_key(w) <==> windows.contains(w),
        0 <= k < resolved.len(),
    ensures
        windows.contains(resolved[k].desc.window),
        cached.contains_key(resolved[k].desc.window),
{
    assert(window_used(resolved, resolved.len() as int, resolved[k].desc.window));
}

} // verus!
