pub mod binomial;
