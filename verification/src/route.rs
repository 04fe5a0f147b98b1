use vstd::prelude::*;

verus! {

/// The matching shape of a route.
#[derive(Debug, Clone, Copy, PartialEq, Eq, Structural)]
pub enum RouteKind {
    Static,
    Dynamic,
    CatchAll,
    Fallback,
}

/// How many path segments a parameter captures.
#[derive(Debug, Clone, Copy, PartialEq, Eq, Structural)]
pub enum ParamKind {
    Single,
    CatchAll,
}

/// A declared parameter of a route.
#[derive(Debug, PartialEq, Eq)]
pub struct ParamSpec {
    pub name: String,
    pub kind: ParamKind,
}

/// What a `ParamSpec` stands for: its name as a sequence of characters, and its kind.
pub ghost struct ParamModel {
    pub name: Seq<char>,
    pub kind: ParamKind,
}

impl View for ParamSpec {
    type V = ParamModel;

    open spec fn view(&self) -> ParamModel {
        ParamModel { name: self.name@, kind: self.kind }
    }
}

impl Clone for ParamSpec {
    fn clone(&self) -> (copy: Self)
        ensures
            copy == *self,
    {
        ParamSpec { name: self.name.clone(), kind: self.kind }
    }
}

/// The models of a sequence of declared parameters.
pub open spec fn param_models(params: Seq<ParamSpec>) -> Seq<ParamModel> {
    params.map_values(|p: ParamSpec| p@)
}

/// A route pattern together with where it came from.
#[derive(Debug, PartialEq, Eq)]
pub struct RouteSpec {
    pub id: u64,
    pub path: String,
    pub kind: RouteKind,
    pub params: Vec<ParamSpec>,
    pub source: String,
}

/// What a `RouteSpec` stands for, with texts as sequences of characters.
pub ghost struct RouteModel {
    pub id: u64,
    pub path: Seq<char>,
    pub kind: RouteKind,
    pub params: Seq<ParamModel>,
    pub source: Seq<char>,
}

impl View for RouteSpec {
    type V = RouteModel;

    open spec fn view(&self) -> RouteModel {
        RouteModel {
            id: self.id,
            path: self.path@,
            kind: self.kind,
            params: param_models(self.params@),
            source: self.source@,
        }
    }
}

/// A copy of each declared parameter, in order.
pub fn clone_params(params: &Vec<ParamSpec>) -> (copy: Vec<ParamSpec>)
    ensures
        copy@ == params@,
{
    let mut copy: Vec<ParamSpec> = Vec::new();
    let mut i: usize = 0;
    while i < params.len()
        invariant
            i <= params@.len(),
            copy@ == params@.take(i as int),
        decreases params@.len() - i,
    {
        copy.push(params[i].clone());
        assert(params@.take(i + 1) =~= params@.take(i as int).push(params@[i as int]));
        i += 1;
    }
    assert(params@.take(params@.len() as int) =~= params@);
    copy
}

impl Clone for RouteSpec {
    fn clone(&self) -> (copy: Self)
        ensures
            copy@ == self@,
    {
        RouteSpec {
            id: self.id,
            path: self.path.clone(),
            kind: self.kind,
            params: clone_params(&self.params),
            source: self.source.clone(),
        }
    }
}

} // verus!
