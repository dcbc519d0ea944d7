//! What a server said of itself when the connection was set up: the legend
//! by which its semantic tokens are read.

use super::response::LSPResponse;
use super::utils::LSPError;
use crate::text::strings_view;
use vstd::prelude::*;

verus! {

/// The two name tables that a server announces for its semantic tokens.
#[derive(Debug, Clone, PartialEq, Eq, Default)]
pub struct SemanticTokensLegend {
    pub token_types: Vec<String>,
    pub token_modifiers: Vec<String>,
}

/// The two forms in which a server announces semantic tokens. Both carry
/// the same legend.
#[derive(Debug, Clone, PartialEq, Eq)]
pub enum SemanticTokensServerCapabilities {
    SemanticTokensOptions(SemanticTokensLegend),
    SemanticTokensRegistrationOptions(SemanticTokensLegend),
}

/// What the answer to the first request holds of the server's abilities.
#[derive(Debug, Clone, PartialEq, Eq, Default)]
pub struct InitializeResult {
    pub semantic_tokens_provider: Option<SemanticTokensServerCapabilities>,
}

/// What is kept of a server's abilities for the life of the connection.
#[derive(Debug, Clone, PartialEq, Eq, Default)]
pub struct LSPInfo {
    pub semantic_token_info: Option<SemanticTokenInfo>,
}

/// The legend of a connection: the names of the token types and of the
/// token modifiers, each in the order in which the server numbers them.
#[derive(Debug, Clone, PartialEq, Eq, Default)]
pub struct SemanticTokenInfo {
    token_types: Vec<String>,
    token_modifiers: Vec<String>,
}

/// A legend as its two lists of names.
pub struct LegendView {
    pub types: Seq<Seq<char>>,
    pub modifiers: Seq<Seq<char>>,
}

impl View for SemanticTokensLegend {
    type V = LegendView;

    open spec fn view(&self) -> LegendView {
        LegendView {
            types: strings_view(self.token_types@),
            modifiers: strings_view(self.token_modifiers@),
        }
    }
}

impl View for SemanticTokenInfo {
    type V = LegendView;

    closed spec fn view(&self) -> LegendView {
        LegendView {
            types: strings_view(self.token_types@),
            modifiers: strings_view(self.token_modifiers@),
        }
    }
}

/// The number of modifier bits of a token: every bit of the 32-bit set.
pub const MODIFIER_BITS: u32 = 32;

/// Whether bit `i` of `bits` is set, for `i` below 32.
pub open spec fn bit_set(bits: u32, i: u32) -> bool {
    bits & (1u32 << i) != 0
}

/// Whether every modifier bit that is set in `bits` has a name among
/// `count` names.
pub open spec fn modifiers_known(count: nat, bits: u32) -> bool {
    forall|i: u32| i < MODIFIER_BITS && bit_set(bits, i) ==> (i as nat) < count
}

/// The names of the modifiers whose bits are set in `bits`, among the bits
/// below `upto`, in the order of the bits.
pub open spec fn spec_modifiers(names: Seq<Seq<char>>, bits: u32, upto: u32) -> Seq<Seq<char>>
    decreases upto,
{
    if upto == 0 {
        Seq::empty()
    } else {
        let below = spec_modifiers(names, bits, (upto - 1) as u32);
        if bit_set(bits, (upto - 1) as u32) {
            below.push(names[upto - 1])
        } else {
            below
        }
    }
}

/// The legend that a server's announcement carries, if it made one.
pub open spec fn spec_legend(
    provider: Option<SemanticTokensServerCapabilities>,
) -> Option<LegendView> {
    match provider {
        Some(SemanticTokensServerCapabilities::SemanticTokensOptions(legend)) => Some(legend@),
        Some(SemanticTokensServerCapabilities::SemanticTokensRegistrationOptions(legend)) => Some(
            legend@,
        ),
        None => None,
    }
}

impl LSPInfo {
    /// The legend that this connection has, if its server announced one.
    pub open spec fn legend(&self) -> Option<LegendView> {
        match self.semantic_token_info {
            Some(info) => Some(info@),
            None => None,
        }
    }

    /// Takes what is kept from the answer to the first request.
    ///
    /// A server that announces semantic tokens, in either form, gives the
    /// connection its legend. One that announces none leaves it without:
    /// that is no failure. Where the server answered with an error, the
    /// error is the result.
    pub fn new(init_res: LSPResponse<InitializeResult>) -> (info: Result<Self, LSPError>)
        ensures
            match (info, init_res.result) {
                (Ok(i), Ok(r)) => i.legend() == spec_legend(r.semantic_tokens_provider),
                (Err(e), Err(f)) => e == f,
                _ => false,
            },
    {
        let semantic_token_info = match init_res.result {
            Ok(result) => match result.semantic_tokens_provider {
                Some(token_capability) => match token_capability {
                    SemanticTokensServerCapabilities::SemanticTokensOptions(options) => Some(
                        SemanticTokenInfo::new(options),
                    ),
                    SemanticTokensServerCapabilities::SemanticTokensRegistrationOptions(
                        options,
                    ) => Some(SemanticTokenInfo::new(options)),
                },
                None => None,
            },
            Err(e) => {
                return Err(e);
            },
        };
        Ok(Self { semantic_token_info })
    }
}

impl SemanticTokenInfo {
    /// The legend with the names that a server announced.
    pub fn new(options: SemanticTokensLegend) -> (info: Self)
        ensures
            info@ == options@,
    {
        Self { token_types: options.token_types, token_modifiers: options.token_modifiers }
    }

    /// The number of token types that have a name.
    pub fn token_type_count(&self) -> (count: usize)
        ensures
            count == self@.types.len(),
    {
        self.token_types.len()
    }

    /// The name of token type `idx`.
    pub fn get_token_type(&self, idx: u32) -> (name: String)
        requires
            idx < self@.types.len(),
        ensures
            name@ == self@.types[idx as int],
    {
        self.token_types[idx as usize].clone()
    }

    /// Whether every modifier bit that is set in `modifiers` has a name.
    pub fn knows_modifiers(&self, modifiers: u32) -> (known: bool)
        ensures
            known == modifiers_known(self@.modifiers.len(), modifiers),
    {
        let count = self.token_modifiers.len();
        let mut i: u32 = 0;
        while i < MODIFIER_BITS
            invariant
                i <= MODIFIER_BITS,
                count == self@.modifiers.len(),
                forall|k: u32| k < i && bit_set(modifiers, k) ==> (k as nat) < count,
            decreases MODIFIER_BITS - i,
        {
            if modifiers & (1u32 << i) != 0 && i as usize >= count {
                assert(bit_set(modifiers, i) && !((i as nat) < count));
                return false;
            }
            i += 1;
        }
        true
    }

    /// The names of the modifiers whose bits are set in `modifiers`, in the
    /// order of the bits.
    pub fn get_token_modifiers(&self, modifiers: u32) -> (names: Vec<String>)
        requires
            modifiers_known(self@.modifiers.len(), modifiers),
        ensures
            strings_view(names@) == spec_modifiers(self@.modifiers, modifiers, MODIFIER_BITS),
    {
        let mut modifiers_vec: Vec<String> = Vec::new();
        let mut i: u32 = 0;
        assert(strings_view(modifiers_vec@) =~= Seq::<Seq<char>>::empty());
        while i < MODIFIER_BITS
            invariant
                i <= MODIFIER_BITS,
                modifiers_known(self@.modifiers.len(), modifiers),
                strings_view(modifiers_vec@) == spec_modifiers(self@.modifiers, modifiers, i),
            decreases MODIFIER_BITS - i,
        {
            let ghost below = strings_view(modifiers_vec@);
            if modifiers & (1u32 << i) != 0 {
                assert(bit_set(modifiers, i));
                let name = self.token_modifiers[i as usize].clone();
                modifiers_vec.push(name);
                assert(strings_view(modifiers_vec@) =~= below.push(self@.modifiers[i as int]));
            }
            i += 1;
        }
        modifiers_vec
    }
}

} // verus!
