//! Listas encadeadas (simples e duplas) cujas células vivem numa arena e são
//! identificadas por endereços estáveis: um endereço continua a designar a
//! mesma célula enquanto ela pertencer à lista, sejam quais forem as
//! inserções e remoções feitas em outras posições.

pub mod encadeamento;
pub mod lista_encadeada;
pub mod lista_dupla;
pub mod leis;
