//! The wire value of the query engine and the options of its requests,
//! carried through as they are: nothing in this library looks inside them.

use aws_sdk_dynamodb::types::{
    AttributeValue, ReturnConsumedCapacity, ReturnItemCollectionMetrics, ReturnValue,
    ReturnValuesOnConditionCheckFailure, Select,
};
use vstd::prelude::*;

verus! {

/// `aws_sdk_dynamodb::types::AttributeValue`, the value that a request
/// carries behind a value placeholder. Opaque here.
#[verifier::external_type_specification]
#[verifier::external_body]
pub struct ExAttributeValue(AttributeValue);

/// `aws_sdk_dynamodb::types::ReturnConsumedCapacity`, an option of requests.
/// Opaque here.
#[verifier::external_type_specification]
#[verifier::external_body]
pub struct ExReturnConsumedCapacity(ReturnConsumedCapacity);

/// `aws_sdk_dynamodb::types::ReturnItemCollectionMetrics`, an option of
/// writes. Opaque here.
#[verifier::external_type_specification]
#[verifier::external_body]
pub struct ExReturnItemCollectionMetrics(ReturnItemCollectionMetrics);

/// `aws_sdk_dynamodb::types::ReturnValue`, an option of writes. Opaque here.
#[verifier::external_type_specification]
#[verifier::external_body]
pub struct ExReturnValue(ReturnValue);

/// `aws_sdk_dynamodb::types::ReturnValuesOnConditionCheckFailure`, an option
/// of writes. Opaque here.
#[verifier::external_type_specification]
#[verifier::external_body]
pub struct ExReturnValuesOnConditionCheckFailure(ReturnValuesOnConditionCheckFailure);

/// `aws_sdk_dynamodb::types::Select`, an option of reads. Opaque here.
#[verifier::external_type_specification]
#[verifier::external_body]
pub struct ExSelect(Select);

/// The wire value that holds the text `text`: what the variant
/// `AttributeValue::S` makes of it.
pub uninterp spec fn text_attribute(text: Seq<char>) -> AttributeValue;

/// Makes the string variant `AttributeValue::S` of the wire value. Not
/// proved: that the value made depends on the characters of the text alone.
#[verifier::external_body]
pub(crate) fn text_value(text: String) -> (value: AttributeValue)
    ensures
        value == text_attribute(text@),
{
    AttributeValue::S(text)
}

} // verus!
