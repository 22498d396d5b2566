//! Decorating an explainer with feature and output metadata.
use vstd::prelude::*;
use crate::error::Result;
use crate::metadata::{
    feature_metadata_error, feature_metadata_valid, output_metadata_error, output_metadata_valid,
    FeatureMetadata, OutputMetadata,
};

verus! {

/// Adds feature and output metadata to any explainer without changing its
/// algorithm; both are validated when attached.
pub struct MetadataExplainer<E> {
    inner: E,
    feature_metadata: Option<FeatureMetadata>,
    output_metadata: Option<OutputMetadata>,
}

impl<E> MetadataExplainer<E> {
    /// The decorated explainer.
    pub closed spec fn spec_inner(&self) -> E {
        self.inner
    }

    /// The attached feature metadata.
    pub closed spec fn spec_feature_metadata(&self) -> Option<FeatureMetadata> {
        self.feature_metadata
    }

    /// The attached output metadata.
    pub closed spec fn spec_output_metadata(&self) -> Option<OutputMetadata> {
        self.output_metadata
    }

    /// Wraps `inner` with no metadata attached.
    pub fn new(inner: E) -> (r: Self)
        ensures
            r.spec_inner() == inner,
            r.spec_feature_metadata() is None,
            r.spec_output_metadata() is None,
    {
        Self { inner, feature_metadata: None, output_metadata: None }
    }

    /// Attaches feature metadata once [`FeatureMetadata::validate`] accepts
    /// it, failing with that check's error otherwise.
    pub fn with_feature_metadata(self, metadata: FeatureMetadata) -> (r: Result<Self>)
        ensures
            r is Ok <==> feature_metadata_valid(metadata),
            r matches Ok(d) ==> d.spec_inner() == self.spec_inner() && d.spec_feature_metadata()
                == Some(metadata) && d.spec_output_metadata() == self.spec_output_metadata(),
            r matches Ok(d) ==> decoration_step(self, d),
            r matches Err(e) ==> feature_metadata_error(metadata, e),
    {
        match metadata.validate() {
            Ok(()) => Ok(Self { feature_metadata: Some(metadata), ..self }),
            Err(e) => Err(e),
        }
    }

    /// Attaches output metadata once [`OutputMetadata::validate`] accepts
    /// it, failing with that check's error otherwise.
    pub fn with_output_metadata(self, metadata: OutputMetadata) -> (r: Result<Self>)
        ensures
            r is Ok <==> output_metadata_valid(metadata),
            r matches Ok(d) ==> d.spec_inner() == self.spec_inner() && d.spec_output_metadata()
                == Some(metadata) && d.spec_feature_metadata() == self.spec_feature_metadata(),
            r matches Ok(d) ==> decoration_step(self, d),
            r matches Err(e) ==> output_metadata_error(metadata, e),
    {
        match metadata.validate() {
            Ok(()) => Ok(Self { output_metadata: Some(metadata), ..self }),
            Err(e) => Err(e),
        }
    }

    /// The decorated explainer.
    pub fn inner(&self) -> (r: &E)
        ensures
            *r == self.spec_inner(),
    {
        &self.inner
    }

    /// Unwraps the decorated explainer.
    pub fn into_inner(self) -> (r: E)
        ensures
            r == self.spec_inner(),
    {
        self.inner
    }

    /// The attached feature metadata, if any.
    pub fn feature_metadata(&self) -> (r: Option<&FeatureMetadata>)
        ensures
            r == match self.spec_feature_metadata() {
                Some(m) => Some(&m),
                None => None::<&FeatureMetadata>,
            },
    {
        match &self.feature_metadata {
            Some(m) => Some(m),
            None => None,
        }
    }

    /// The attached output metadata, if any.
    pub fn output_metadata(&self) -> (r: Option<&OutputMetadata>)
        ensures
            r == match self.spec_output_metadata() {
                Some(m) => Some(&m),
                None => None::<&OutputMetadata>,
            },
    {
        match &self.output_metadata {
            Some(m) => Some(m),
            None => None,
        }
    }
}

/// `b` is `a` with feature or output metadata attached: the wrapped
/// explainer is the same, one kind of metadata is now present and the other
/// is unchanged.
pub open spec fn decoration_step<E>(a: MetadataExplainer<E>, b: MetadataExplainer<E>) -> bool {
    &&& b.spec_inner() == a.spec_inner()
    &&& (b.spec_feature_metadata() is Some && b.spec_output_metadata() == a.spec_output_metadata())
        || (b.spec_output_metadata() is Some && b.spec_feature_metadata() == a.spec_feature_metadata())
}

/// Each stage of `chain` after the first is a decoration of the one before.
pub open spec fn decoration_chain<E>(chain: Seq<MetadataExplainer<E>>) -> bool
    decreases chain.len(),
{
    chain.len() <= 1 || (decoration_chain(chain.drop_last()) && decoration_step(
        chain[chain.len() - 2],
        chain.last(),
    ))
}

/// Decorating with metadata never changes the wrapped explainer: along any
/// chain of decorations that starts from an explainer wrapping `e` (as
/// `MetadataExplainer::new(e)` does), every stage wraps `e`, so
/// `into_inner` on the last stage returns `e` itself.
pub proof fn lemma_decorations_keep_inner<E>(chain: Seq<MetadataExplainer<E>>, e: E)
    requires
        chain.len() > 0,
        chain[0].spec_inner() == e,
        decoration_chain(chain),
    ensures
        forall|i: int| 0 <= i < chain.len() ==> (#[trigger] chain[i]).spec_inner() == e,
    decreases chain.len(),
{
    if chain.len() > 1 {
        let front = chain.drop_last();
        lemma_decorations_keep_inner(front, e);
        assert(front[front.len() - 1] == chain[chain.len() - 2]);
        assert forall|i: int| 0 <= i < chain.len() implies (#[trigger] chain[i]).spec_inner() == e by {
            if i < chain.len() - 1 {
                assert(chain[i] == front[i]);
            }
        }
    }
}

/// Convenience methods available on every explainer.
pub trait ExplainerExt: Sized {
    /// Wraps the explainer so that metadata can be attached to its results.
    fn with_metadata(self) -> (r: MetadataExplainer<Self>)
        ensures
            r.spec_inner() == self,
            r.spec_feature_metadata() is None,
            r.spec_output_metadata() is None,
    {
        MetadataExplainer::new(self)
    }
}

impl<E> ExplainerExt for E {

}

} // verus!
