//! Correction decisions: typed candidate values, the decision engine and the lexical provider.

pub mod correction_engine;
pub mod decision_laws;
pub mod lexical_provider;

pub use correction_engine::{
    Confidence, ConfidenceError, CorrectionCandidate, CorrectionCandidateProvider,
    CorrectionDecision, CorrectionEngine, ReplacementText, ReplacementTextError,
};
pub use lexical_provider::{
    weighted_damerau_cost, LexicalCorrectionProvider, LexicalProviderError, LexicalSnapshot,
};
