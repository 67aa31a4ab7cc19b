use vstd::prelude::*;
use vstd::std_specs::cmp::PartialEqSpecImpl;
use vstd::std_specs::convert::FromSpecImpl;

verus! {

/// Identifies an asset: a native coin by its denomination, or a CW20 token by
/// its contract address.
#[derive(Debug, PartialEq, Eq)]
pub enum AssetInfo {
    Native(String),
    Cw20(String),
}

/// The mathematical value of an [`AssetInfo`].
#[verifier::ext_equal]
pub enum AssetInfoView {
    Native(Seq<char>),
    Cw20(Seq<char>),
}

impl View for AssetInfo {
    type V = AssetInfoView;

    open spec fn view(&self) -> AssetInfoView {
        match self {
            AssetInfo::Native(denom) => AssetInfoView::Native(denom@),
            AssetInfo::Cw20(addr) => AssetInfoView::Cw20(addr@),
        }
    }
}

impl Clone for AssetInfo {
    fn clone(&self) -> (res: Self)
        ensures
            res == *self,
    {
        match self {
            AssetInfo::Native(denom) => AssetInfo::Native(denom.clone()),
            AssetInfo::Cw20(addr) => AssetInfo::Cw20(addr.clone()),
        }
    }
}

/// The text an asset is displayed as: `native:<denom>` or `cw20:<address>`.
pub open spec fn asset_display(info: AssetInfoView) -> Seq<char> {
    match info {
        AssetInfoView::Native(denom) => "native:"@ + denom,
        AssetInfoView::Cw20(addr) => "cw20:"@ + addr,
    }
}

/// Two assets display alike exactly when they are the same asset.
pub proof fn lemma_display_injective(a: AssetInfoView, b: AssetInfoView)
    ensures
        (asset_display(a) == asset_display(b)) <==> (a == b),
{
    reveal_strlit("native:");
    reveal_strlit("cw20:");
    if asset_display(a) == asset_display(b) {
        match (a, b) {
            (AssetInfoView::Native(x), AssetInfoView::Native(y)) => {
                assert(x =~= asset_display(a).skip(7));
                assert(y =~= asset_display(b).skip(7));
            },
            (AssetInfoView::Cw20(x), AssetInfoView::Cw20(y)) => {
                assert(x =~= asset_display(a).skip(5));
                assert(y =~= asset_display(b).skip(5));
            },
            (AssetInfoView::Native(x), AssetInfoView::Cw20(y)) => {
                assert(asset_display(a)[0] == 'n');
                assert(asset_display(b)[0] == 'c');
            },
            (AssetInfoView::Cw20(x), AssetInfoView::Native(y)) => {
                assert(asset_display(a)[0] == 'c');
                assert(asset_display(b)[0] == 'n');
            },
        }
    }
}

/// Renders an asset through `cw_asset::AssetInfo`'s `Display` (`to_string`),
/// which writes `native:{denom}` for a native coin and `cw20:{contract_addr}`
/// for a CW20 token; the contract claims exactly that text.
#[verifier::external_body]
fn asset_info_to_string(info: AssetInfo) -> (res: String)
    ensures
        res@ == asset_display(info@),
{
    let outside: cw_asset::AssetInfo = match info {
        AssetInfo::Native(denom) => cw_asset::AssetInfo::Native(denom),
        AssetInfo::Cw20(addr) => cw_asset::AssetInfo::Cw20(cosmwasm_std::Addr::unchecked(addr)),
    };
    outside.to_string()
}

/// An asset compared by the text it is displayed as.
#[derive(Debug)]
pub struct AssetInfoWrapper(pub AssetInfo);

impl Clone for AssetInfoWrapper {
    fn clone(&self) -> (res: Self)
        ensures
            res == *self,
    {
        AssetInfoWrapper(self.0.clone())
    }
}

impl View for AssetInfoWrapper {
    type V = AssetInfoView;

    open spec fn view(&self) -> AssetInfoView {
        self.0@
    }
}

impl PartialEq for AssetInfoWrapper {
    fn eq(&self, other: &Self) -> (res: bool) {
        let a = asset_info_to_string(self.0.clone());
        let b = asset_info_to_string(other.0.clone());
        a == b
    }
}

impl PartialEqSpecImpl for AssetInfoWrapper {
    open spec fn obeys_eq_spec() -> bool {
        true
    }

    open spec fn eq_spec(&self, other: &AssetInfoWrapper) -> bool {
        asset_display(self.0@) == asset_display(other.0@)
    }
}

impl Eq for AssetInfoWrapper {}

impl From<AssetInfo> for AssetInfoWrapper {
    fn from(asset_info: AssetInfo) -> (res: Self) {
        AssetInfoWrapper(asset_info)
    }
}

impl FromSpecImpl<AssetInfo> for AssetInfoWrapper {
    open spec fn obeys_from_spec() -> bool {
        true
    }

    open spec fn from_spec(v: AssetInfo) -> AssetInfoWrapper {
        AssetInfoWrapper(v)
    }
}

impl From<AssetInfoWrapper> for AssetInfo {
    fn from(wrapper: AssetInfoWrapper) -> (res: Self) {
        wrapper.0
    }
}

impl FromSpecImpl<AssetInfoWrapper> for AssetInfo {
    open spec fn obeys_from_spec() -> bool {
        true
    }

    open spec fn from_spec(v: AssetInfoWrapper) -> AssetInfo {
        v.0
    }
}

} // verus!
